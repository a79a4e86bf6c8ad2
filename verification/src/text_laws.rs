//! What the operations on texts come to, told by the characters of their results.

use crate::text;
use vstd::prelude::*;
use vstd::utf8::*;

verus! {

// ── characters ──────────────────────────────────────────────────────────────────

/// The numbers of the white characters.
pub open spec fn white_numbers() -> Set<int> {
    set![
        9, 10, 11, 12, 13, 32, 133, 160, 5760, 8192, 8193, 8194, 8195, 8196, 8197, 8198, 8199, 8200,
        8201, 8202, 8232, 8233, 8239, 8287, 12288,
    ]
}

/// There are twenty-five white characters.
pub proof fn law_white_space(c: char)
    ensures
        text::is_white(c) <==> white_numbers().contains(c as u32 as int),
{
}

/// The control characters are two runs of thirty-two, and delete before the second.
pub proof fn law_control_characters(c: char)
    ensures
        text::is_ctrl(c) <==> c as u32 == 127 || (c as u32) % 128 < 32 && (c as u32) < 256,
{
}

/// Every character is white space.
pub open spec fn all_white(s: Seq<char>) -> bool {
    forall|i: int| 0 <= i < s.len() ==> text::is_white(#[trigger] s[i])
}

/// A capital of the ASCII letters.
pub open spec fn is_capital(c: char) -> bool {
    65 <= c as u32 <= 90
}

/// In lower case, each ASCII capital has become the letter thirty-two numbers behind it,
/// and every other character is as it was.
pub proof fn law_ascii_lower(s: Seq<char>, i: int)
    requires
        0 <= i < s.len(),
    ensures
        text::ascii_lower(s).len() == s.len(),
        is_capital(s[i]) ==> text::ascii_lower(s)[i] as u32 == s[i] as u32 + 32,
        !is_capital(s[i]) ==> text::ascii_lower(s)[i] == s[i],
        is_ascii_chars(s) ==> text::lower(s) == text::ascii_lower(s),
        !is_ascii_chars(s) ==> text::lower(s) == text::unicode_lower(s),
{
}

/// No text in lower case is longer than none.
pub proof fn law_lower_of_nothing()
    ensures
        text::lower(Seq::empty()) == Seq::<char>::empty(),
        text::ascii_lower(Seq::empty()) == Seq::<char>::empty(),
{
    let none = Seq::<char>::empty();
    assert(is_ascii_chars(none));
    assert(text::ascii_lower(none) =~= none);
}

/// One is the capital of the other.
pub open spec fn is_capital_of(a: char, b: char) -> bool {
    is_capital(a) && b as u32 == a as u32 + 32
}

/// Two texts differ in the case of ASCII letters alone just where they are as long and
/// each two characters are the same or the same letter.
pub proof fn law_same_but_case(a: Seq<char>, b: Seq<char>)
    ensures
        text::same_but_ascii_case(a, b) <==> a.len() == b.len() && forall|i: int|
            0 <= i < a.len() ==> (#[trigger] a[i] == b[i] || is_capital_of(a[i], b[i])
                || is_capital_of(b[i], a[i])),
{
    let x = text::ascii_lower(a);
    let y = text::ascii_lower(b);
    if text::same_but_ascii_case(a, b) {
        assert(x.len() == a.len() && y.len() == b.len());
        assert forall|i: int| 0 <= i < a.len() implies (#[trigger] a[i] == b[i] || is_capital_of(
            a[i],
            b[i],
        ) || is_capital_of(b[i], a[i])) by {
            assert(x[i] == y[i]);
            law_ascii_lower(a, i);
            law_ascii_lower(b, i);
            char_u32_cast(a[i], a[i] as u32);
            char_u32_cast(b[i], b[i] as u32);
        }
    }
    if a.len() == b.len() && forall|i: int|
        0 <= i < a.len() ==> (#[trigger] a[i] == b[i] || is_capital_of(a[i], b[i])
            || is_capital_of(b[i], a[i])) {
        assert forall|i: int| 0 <= i < a.len() implies x[i] == y[i] by {
            assert(a[i] == b[i] || is_capital_of(a[i], b[i]) || is_capital_of(b[i], a[i]));
            law_ascii_lower(a, i);
            law_ascii_lower(b, i);
            char_u32_cast(x[i], x[i] as u32);
            char_u32_cast(y[i], y[i] as u32);
        }
        assert(x =~= y);
    }
}

// ── trimming ────────────────────────────────────────────────────────────────────

/// A text neither begins nor ends in white space.
pub open spec fn is_trimmed(s: Seq<char>) -> bool {
    s.len() > 0 ==> !text::is_white(s[0]) && !text::is_white(s.last())
}

/// Trimming the start takes away the white space before the first other character, and
/// nothing more.
pub proof fn law_trim_start(white: Seq<char>, body: Seq<char>)
    requires
        all_white(white),
        body.len() > 0 ==> !text::is_white(body[0]),
    ensures
        text::trim_start(white + body) == body,
        text::lead(white + body) == white.len(),
{
    let s = white + body;
    let n = white.len() as int;
    assert forall|i: int| 0 <= i < n implies text::is_white(#[trigger] s[i]) by {
        assert(s[i] == white[i]);
    }
    text::lemma_lead_is(s, n);
    assert(s.skip(n) =~= body);
}

/// Trimming the end takes away the white space behind the last other character, and
/// nothing more.
pub proof fn law_trim_end(body: Seq<char>, white: Seq<char>)
    requires
        all_white(white),
        body.len() > 0 ==> !text::is_white(body.last()),
    ensures
        text::trim_end(body + white) == body,
        text::trail(body + white) == white.len(),
{
    let s = body + white;
    let n = white.len() as int;
    assert forall|i: int| s.len() - n <= i < s.len() implies text::is_white(#[trigger] s[i]) by {
        assert(s[i] == white[i - body.len()]);
    }
    text::lemma_trail_is(s, n);
    assert(s.take(s.len() - n) =~= body);
}

/// Trimming takes away the white space at either end, and nothing more.
pub proof fn law_trim(before: Seq<char>, body: Seq<char>, behind: Seq<char>)
    requires
        all_white(before),
        all_white(behind),
        is_trimmed(body),
    ensures
        text::trim(before + body + behind) == body,
{
    let s = before + body + behind;
    if body.len() == 0 {
        assert(s =~= before + behind);
        assert forall|i: int| 0 <= i < s.len() implies text::is_white(#[trigger] s[i]) by {
            if i < before.len() {
                assert(s[i] == before[i]);
            } else {
                assert(s[i] == behind[i - before.len()]);
            }
        }
        law_trim_start(s, body);
        assert(s + body =~= s);
        text::lemma_trail(body);
        assert(text::trim_end(body) =~= body);
    } else {
        assert(s =~= before + (body + behind));
        law_trim_start(before, body + behind);
        law_trim_end(body, behind);
    }
}

/// Every text is a trimmed one between two of white space.
pub proof fn lemma_trimmed_parts(s: Seq<char>) -> (r: (Seq<char>, Seq<char>))
    ensures
        s == r.0 + text::trim(s) + r.1,
        all_white(r.0),
        all_white(r.1),
        is_trimmed(text::trim(s)),
{
    text::lemma_lead(s);
    let t = text::trim_start(s);
    text::lemma_trail(t);
    let a = s.take(text::lead(s) as int);
    let b = t.skip(t.len() - text::trail(t));
    let body = text::trim(s);
    assert(s =~= a + body + b);
    assert forall|i: int| 0 <= i < b.len() implies text::is_white(#[trigger] b[i]) by {
        assert(b[i] == t[t.len() - text::trail(t) + i]);
    }
    if body.len() > 0 {
        assert(body[0] == s[text::lead(s) as int]);
    }
    (a, b)
}

/// One carriage return at the end of a line goes, and no other character.
pub proof fn law_strip_cr(s: Seq<char>)
    ensures
        text::strip_cr(s.push('\r')) == s,
        s.len() == 0 || s.last() != '\r' ==> text::strip_cr(s) == s,
{
    assert(s.push('\r').drop_last() =~= s);
}

/// The first characters of a text: all of it where there are no more, else as many as
/// asked for.
pub proof fn law_first_chars(head: Seq<char>, tail: Seq<char>)
    ensures
        text::first_chars(head + tail, head.len() as int) == head,
        forall|n: int| n >= head.len() ==> #[trigger] text::first_chars(head, n) == head,
{
    assert((head + tail).take(head.len() as int) =~= head);
    if tail.len() == 0 {
        assert(head + tail =~= head);
    }
}

// ── searching ───────────────────────────────────────────────────────────────────

/// A text stands in another at a place just where the other is made up of as many
/// characters, the text, and some more.
pub proof fn law_occurrence(hay: Seq<char>, needle: Seq<char>, i: int)
    ensures
        text::occurs_at(hay, needle, i) <==> exists|a: Seq<char>, b: Seq<char>|
            a.len() == i && hay == #[trigger] (a + needle + b),
{
    if text::occurs_at(hay, needle, i) {
        let a = hay.take(i);
        let b = hay.skip(i + needle.len());
        assert(hay =~= a + hay.subrange(i, i + needle.len()) + b);
        assert(hay == a + needle + b);
    }
    if exists|a: Seq<char>, b: Seq<char>| a.len() == i && hay == #[trigger] (a + needle + b) {
        let (a, b) = choose|a: Seq<char>, b: Seq<char>|
            a.len() == i && hay == #[trigger] (a + needle + b);
        assert(hay.subrange(i, i + needle.len()) =~= needle);
    }
}

/// A text holds another just where it is made up of something, the other, and something
/// more.
pub proof fn law_contains(hay: Seq<char>, needle: Seq<char>)
    ensures
        text::contains(hay, needle) <==> exists|a: Seq<char>, b: Seq<char>|
            hay == #[trigger] (a + needle + b),
{
    if text::contains(hay, needle) {
        let i = choose|i: int| text::occurs_at(hay, needle, i);
        law_occurrence(hay, needle, i);
    }
    if exists|a: Seq<char>, b: Seq<char>| hay == #[trigger] (a + needle + b) {
        let (a, b) = choose|a: Seq<char>, b: Seq<char>| hay == #[trigger] (a + needle + b);
        law_occurrence(hay, needle, a.len() as int);
        assert(text::occurs_at(hay, needle, a.len() as int));
    }
}

/// The place that a search gives has the text behind it and no earlier place has; where
/// it gives none, no place has.
pub proof fn law_find(hay: Seq<char>, needle: Seq<char>, a: Seq<char>, b: Seq<char>)
    requires
        hay == a + needle + b,
    ensures
        text::find(hay, needle) is Some,
        text::find(hay, needle)->0 <= a.len(),
        exists|x: Seq<char>, y: Seq<char>|
            x.len() == text::find(hay, needle)->0 && hay == #[trigger] (x + needle + y),
{
    law_occurrence(hay, needle, a.len() as int);
    text::lemma_find(hay, needle);
    law_occurrence(hay, needle, text::find(hay, needle)->0);
}

/// A search that gives a place gives one where the text stands.
pub proof fn law_find_is_true(hay: Seq<char>, needle: Seq<char>)
    requires
        text::find(hay, needle) is Some,
    ensures
        exists|x: Seq<char>, y: Seq<char>|
            x.len() == text::find(hay, needle)->0 && hay == #[trigger] (x + needle + y),
{
    text::lemma_find(hay, needle);
    law_occurrence(hay, needle, text::find(hay, needle)->0);
}

/// A text begins with another just where it is the other and something more.
pub proof fn law_starts_with(hay: Seq<char>, needle: Seq<char>)
    ensures
        text::starts_with(hay, needle) <==> exists|b: Seq<char>| hay == #[trigger] (needle + b),
{
    law_occurrence(hay, needle, 0);
    if text::starts_with(hay, needle) {
        let (a, b) = choose|a: Seq<char>, b: Seq<char>|
            a.len() == 0 && hay == #[trigger] (a + needle + b);
        assert(a + needle + b =~= needle + b);
    }
    if exists|b: Seq<char>| hay == #[trigger] (needle + b) {
        let b = choose|b: Seq<char>| hay == #[trigger] (needle + b);
        assert(Seq::<char>::empty() + needle + b =~= needle + b);
    }
}

// ── splitting and joining ───────────────────────────────────────────────────────

/// A text without the separator is one piece; a separator and a text without it behind
/// others make one more piece.
pub proof fn law_split(a: Seq<char>, b: Seq<char>, sep: char)
    requires
        !b.contains(sep),
    ensures
        text::split(b, sep) == seq![b],
        text::split(a.push(sep) + b, sep) == text::split(a, sep).push(b),
{
    text::lemma_split_one(b, sep);
    text::lemma_split_append(a, b, sep);
    assert(a.push(sep) + b =~= a + seq![sep] + b);
}

/// Joined pieces: nothing of none, one as it is, and one more behind a separator.
pub proof fn law_join(pieces: Seq<Seq<char>>, sep: Seq<char>, last: Seq<char>)
    ensures
        text::join(Seq::empty(), sep) == Seq::<char>::empty(),
        text::join(seq![last], sep) == last,
        pieces.len() > 0 ==> text::join(pieces.push(last), sep) == text::join(pieces, sep) + sep
            + last,
{
    if pieces.len() > 0 {
        text::lemma_join_push(pieces, sep, last);
    }
}

/// A list of strings has their texts, each at its place.
pub proof fn law_views(v: Seq<String>, i: int)
    ensures
        text::views(v).len() == v.len(),
        0 <= i < v.len() ==> text::views(v)[i] == v[i]@,
{
}

/// An optional string or a result has the text of what it holds.
pub proof fn law_views_of_one(s: String, e: String)
    ensures
        text::opt_view(Some(s)) == Some(s@),
        text::opt_view(None) is None,
        text::result_view(Ok(s)) == Ok::<Seq<char>, Seq<char>>(s@),
        text::result_view(Err(e)) == Err::<Seq<char>, Seq<char>>(e@),
        text::is_set(Some(true)),
        !text::is_set(Some(false)),
        !text::is_set(None),
{
}

// ── numbers ─────────────────────────────────────────────────────────────────────

/// One more digit makes ten times the number, and the digit more.
pub proof fn law_number(s: Seq<char>, c: char)
    requires
        text::is_digit(c),
    ensures
        text::number(Seq::empty()) == 0,
        48 <= c as u32 <= 57,
        text::number(s.push(c)) == 10 * text::number(s) + (c as u32 - 48),
{
    assert(s.push(c).drop_last() =~= s);
}

/// The ten digits are those from zero on.
pub proof fn law_digits(c: char)
    ensures
        text::is_digit(c) <==> 48 <= c as u32 <= 57,
{
}

/// A number is written in digits alone that stand for it, without a zero in front.
pub proof fn law_decimal(n: nat)
    ensures
        text::is_number(text::decimal(n)),
        text::number(text::decimal(n)) == n,
        text::decimal(n)[0] == '0' ==> n == 0,
        n == 0 ==> text::decimal(n).len() == 1,
    decreases n,
{
    text::lemma_decimal(n);
    if n >= 10 {
        law_decimal(n / 10);
        assert(text::decimal(n)[0] == text::decimal(n / 10)[0]);
    }
}

/// Digits in any number, at least one, and nothing else are a number.
pub proof fn law_is_number(s: Seq<char>, c: char)
    ensures
        !text::is_number(Seq::empty()),
        text::is_number(seq![c]) <==> text::is_digit(c),
        s.len() > 0 ==> (text::is_number(s.push(c)) <==> text::is_number(s) && text::is_digit(c)),
{
    assert(seq![c][0] == c);
    let t = s.push(c);
    if s.len() > 0 {
        if text::is_number(t) {
            assert(text::is_digit(t[t.len() - 1]));
            assert forall|i: int| 0 <= i < s.len() implies text::is_digit(#[trigger] s[i]) by {
                assert(t[i] == s[i]);
            }
        }
    }
}

/// Zeros in front of a number do not count.
proof fn lemma_zeros_in_front(n: int, d: Seq<char>)
    requires
        text::is_number(d),
    ensures
        text::is_number(text::zeros(n) + d),
        text::number(text::zeros(n) + d) == text::number(d),
    decreases d.len(),
{
    let z = text::zeros(n);
    let s = z + d;
    assert forall|i: int| 0 <= i < s.len() implies text::is_digit(#[trigger] s[i]) by {
        if i >= z.len() {
            assert(s[i] == d[i - z.len()]);
        }
    }
    assert(s.drop_last() =~= z + d.drop_last());
    assert(s.last() == d.last());
    if d.len() == 1 {
        assert(d.drop_last() =~= Seq::<char>::empty());
        assert(z + d.drop_last() =~= z);
        assert(text::number(Seq::<char>::empty()) == 0);
        lemma_zeros(z);
    } else {
        assert forall|i: int| 0 <= i < d.drop_last().len() implies text::is_digit(
            #[trigger] d.drop_last()[i],
        ) by {
            assert(d.drop_last()[i] == d[i]);
        }
        lemma_zeros_in_front(n, d.drop_last());
    }
}

/// Zeros alone stand for zero.
proof fn lemma_zeros(z: Seq<char>)
    requires
        forall|i: int| 0 <= i < z.len() ==> #[trigger] z[i] == '0',
    ensures
        text::number(z) == 0,
    decreases z.len(),
{
    if z.len() > 0 {
        assert(z[z.len() - 1] == '0');
        lemma_zeros(z.drop_last());
    }
}

/// A padded number is digits that stand for it, behind a minus where it is negative, of at
/// least the width; it is longer than that only where it has no zero in front.
pub proof fn law_padded(n: int, width: nat)
    ensures
        ({
            let s = text::padded(n, width);
            let digits = if n < 0 {
                s.skip(1)
            } else {
                s
            };
            &&& n < 0 ==> s.len() > 0 && s[0] == '-'
            &&& text::is_number(digits)
            &&& text::number(digits) == (if n < 0 {
                -n
            } else {
                n
            })
            &&& s.len() >= width
            &&& s.len() > width && digits[0] == '0' ==> digits.len() == 1
        }),
{
    let m = if n < 0 {
        -n
    } else {
        n
    };
    let d = text::decimal(m as nat);
    law_decimal(m as nat);
    let s = text::padded(n, width);
    if n < 0 {
        let z = text::zeros(width - 1 - d.len());
        lemma_zeros_in_front(width - 1 - d.len(), d);
        assert(s.skip(1) =~= z + d);
        if s.len() > width {
            assert(z + d =~= d);
        }
    } else {
        let z = text::zeros(width - d.len());
        lemma_zeros_in_front(width - d.len(), d);
        if s.len() > width {
            assert(z + d =~= d);
        }
    }
}

/// A number that is read is that of the digits, behind at most one sign, where it fits;
/// no other text is a number.
pub proof fn law_number_is_read(digits: Seq<char>)
    requires
        text::is_number(digits),
    ensures
        ({
            let n = text::number(digits) as int;
            &&& text::i64_of(digits) == (if n < 0x8000_0000_0000_0000 {
                Some(n)
            } else {
                None
            })
            &&& text::i64_of(seq!['+'] + digits) == text::i64_of(digits)
            &&& text::i64_of(seq!['-'] + digits) == (if n <= 0x8000_0000_0000_0000 {
                Some(-n)
            } else {
                None
            })
        }),
{
    assert(text::is_digit(digits[0]));
    assert((seq!['+'] + digits).skip(1) =~= digits);
    assert((seq!['-'] + digits).skip(1) =~= digits);
}

/// What is read as a number is digits, behind at most one sign.
pub proof fn law_only_numbers_are_read(s: Seq<char>)
    requires
        text::i64_of(s) is Some,
    ensures
        s.len() > 0,
        text::is_number(s) || text::is_number(s.skip(1)) && (s[0] == '+' || s[0] == '-'),
{
}

} // verus!
