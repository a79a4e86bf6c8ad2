//! What the encodings come to, byte by byte and character by character.

use crate::encoding_ops;
use crate::encoding_ops::ConvertEncResult;
use crate::encoding_ops::EncodingInfo;
use crate::picks;
use crate::text;
use crate::utf16;
use crate::utf8;
use vstd::prelude::*;
use vstd::utf8::*;

verus! {

// ── targets ─────────────────────────────────────────────────────────────────────

/// The names of the targets are different.
proof fn lemma_targets()
    ensures
        "utf-8"@ != "utf-16le"@,
        "utf-8"@ != "utf-16be"@,
        "utf-8"@ != "latin1"@,
        "utf-16le"@ != "utf-16be"@,
        "utf-16le"@ != "latin1"@,
        "utf-16be"@ != "latin1"@,
{
    reveal_strlit("utf-8");
    reveal_strlit("utf-16le");
    reveal_strlit("utf-16be");
    reveal_strlit("latin1");
    assert("utf-8"@.len() == 5 && "latin1"@.len() == 6);
    assert("utf-16le"@.len() == 8 && "utf-16be"@.len() == 8);
    assert("utf-16le"@[6] == 'l' && "utf-16be"@[6] == 'b');
}

/// A text can be written in four encodings, and in no other.
pub proof fn law_targets(s: Seq<char>, target: Seq<char>)
    ensures
        encoding_ops::encoded(s, target) is Some <==> seq![
            "utf-8"@,
            "utf-16le"@,
            "utf-16be"@,
            "latin1"@,
        ].contains(target),
{
    let list = seq!["utf-8"@, "utf-16le"@, "utf-16be"@, "latin1"@];
    assert(list[0] == "utf-8"@ && list[1] == "utf-16le"@ && list[2] == "utf-16be"@ && list[3]
        == "latin1"@);
}

/// In UTF-8 a text has its UTF-8 bytes, and no mark before them.
pub proof fn law_utf8_bytes(s: Seq<char>)
    ensures
        encoding_ops::encoded(s, "utf-8"@) == Some(encode_utf8(s)),
{
}

/// In Latin-1 a text has one byte for each character: its number where that is at most 255,
/// and a question mark for every other character.
pub proof fn law_latin1_bytes(s: Seq<char>, i: int)
    requires
        0 <= i < s.len(),
    ensures
        encoding_ops::encoded(s, "latin1"@) is Some,
        ({
            let out = encoding_ops::encoded(s, "latin1"@)->0;
            &&& out.len() == s.len()
            &&& s[i] as u32 > 255 ==> out[i] == 63
            &&& s[i] as u32 <= 255 ==> out[i] as u32 == s[i] as u32
        }),
{
    lemma_targets();
    let c = s[i];
    assert(encoding_ops::latin1_bytes(s)[i] == encoding_ops::latin1_byte(c));
    char_u32_cast(c, c as u32);
    if c as u32 <= 255 {
        assert((c as u8) as u32 == c as u32);
    }
}

/// Nothing in Latin-1 is no bytes.
pub proof fn law_latin1_of_nothing()
    ensures
        encoding_ops::encoded(Seq::empty(), "latin1"@) == Some(Seq::<u8>::empty()),
{
    lemma_targets();
    assert(encoding_ops::latin1_bytes(Seq::empty()) =~= Seq::empty());
}

/// The low and the high byte of a unit make it up.
pub open spec fn is_unit_at(bytes: Seq<u8>, at: int, unit: u16, big: bool) -> bool {
    if big {
        bytes[at] as int * 256 + bytes[at + 1] as int == unit
    } else {
        bytes[at + 1] as int * 256 + bytes[at] as int == unit
    }
}

/// In UTF-16 a text has a mark of two bytes and then two bytes for each unit, the low one
/// first or the high one as the target says.
pub proof fn law_utf16_bytes(s: Seq<char>, big: bool, i: int)
    requires
        0 <= i < utf16::text_units(s).len(),
    ensures
        ({
            let target = if big {
                "utf-16be"@
            } else {
                "utf-16le"@
            };
            let units = utf16::text_units(s);
            let out = encoding_ops::encoded(s, target)->0;
            &&& encoding_ops::encoded(s, target) is Some
            &&& out.len() == 2 + 2 * units.len()
            &&& is_unit_at(out, 0, 0xFEFF, big)
            &&& is_unit_at(out, 2 + 2 * i, units[i], big)
        }),
{
    lemma_targets();
    let units = utf16::text_units(s);
    let out = encoding_ops::utf16_bytes(s, big);
    let body = utf16::units_bytes(units, big);
    assert(out[2 + 2 * i] == body[2 * i]);
    assert(out[2 + 2 * i + 1] == body[2 * i + 1]);
    assert((2 * i + 1) / 2 == i && (2 * i + 1) % 2 == 1);
    assert(body[2 * i] == utf16::unit_bytes(units[i], big)[0]);
    assert(body[2 * i + 1] == utf16::unit_bytes(units[i], big)[1]);
}

/// Nothing in UTF-16 is the mark alone.
pub proof fn law_utf16_of_nothing()
    ensures
        encoding_ops::encoded(Seq::empty(), "utf-16be"@) == Some(seq![0xFEu8, 0xFFu8]),
        encoding_ops::encoded(Seq::empty(), "utf-16le"@) == Some(seq![0xFFu8, 0xFEu8]),
{
    lemma_targets();
    let none = Seq::<char>::empty();
    assert(utf16::text_units(none).len() == 0);
    assert(encoding_ops::utf16_bytes(none, true) =~= seq![0xFEu8, 0xFFu8]);
    assert(encoding_ops::utf16_bytes(none, false) =~= seq![0xFFu8, 0xFEu8]);
}

/// One more character has one more unit, of its number, or beyond the first plane two: a
/// high and a low surrogate that make up its number.
pub proof fn law_units_of_text(s: Seq<char>, c: char) -> (own: Seq<u16>)
    ensures
        utf16::text_units(Seq::empty()) == Seq::<u16>::empty(),
        utf16::text_units(s.push(c)) == utf16::text_units(s) + own,
        (c as u32) < 0x10000 ==> own.len() == 1 && own[0] as u32 == c as u32,
        c as u32 >= 0x10000 ==> own.len() == 2 && 0xD800 <= own[0] < 0xDC00 && 0xDC00 <= own[1]
            < 0xE000 && (own[0] - 0xD800) * 0x400 + (own[1] - 0xDC00) + 0x10000 == c as u32,
{
    utf16::lemma_units_push(s, c);
    char_is_scalar(c);
    utf16::char_units(c)
}

// ── reading ─────────────────────────────────────────────────────────────────────

/// Read as Latin-1, each byte is the character of its number.
pub proof fn law_latin1_text(bytes: Seq<u8>, i: int)
    requires
        0 <= i < bytes.len(),
    ensures
        ({
            let s = encoding_ops::decoded(bytes, "Latin-1"@, false);
            &&& s.len() == bytes.len()
            &&& s[i] as u32 == bytes[i] as u32
        }),
{
    lemma_labels();
}

/// The names of the encodings are different.
proof fn lemma_labels()
    ensures
        "UTF-8"@ != "UTF-16LE"@,
        "UTF-8"@ != "UTF-16BE"@,
        "UTF-8"@ != "Latin-1"@,
        "UTF-16LE"@ != "UTF-16BE"@,
        "UTF-16LE"@ != "Latin-1"@,
        "UTF-16BE"@ != "Latin-1"@,
{
    reveal_strlit("UTF-8");
    reveal_strlit("UTF-16LE");
    reveal_strlit("UTF-16BE");
    reveal_strlit("Latin-1");
    assert("UTF-8"@.len() == 5 && "Latin-1"@.len() == 7);
    assert("UTF-16LE"@.len() == 8 && "UTF-16BE"@.len() == 8);
    assert("UTF-16LE"@[6] == 'L' && "UTF-16BE"@[6] == 'B');
}

/// A mark goes and what is behind it stays, whatever it is; without a mark all stays.
pub proof fn law_mark_is_stripped(mark: Seq<u8>, body: Seq<u8>, encoding: Seq<char>)
    ensures
        mark.len() == 3 ==> encoding_ops::body_of(mark + body, "UTF-8"@, true) == body,
        mark.len() == 2 ==> encoding_ops::body_of(mark + body, "UTF-16LE"@, true) == body,
        mark.len() == 2 ==> encoding_ops::body_of(mark + body, "UTF-16BE"@, true) == body,
        encoding_ops::body_of(body, "Latin-1"@, true) == body,
        encoding_ops::body_of(body, encoding, false) == body,
        body.len() < 2 ==> encoding_ops::body_of(body, "UTF-16LE"@, true).len() == 0,
        body.len() < 2 ==> encoding_ops::body_of(body, "UTF-16BE"@, true).len() == 0,
        body.len() < 3 ==> encoding_ops::body_of(body, "UTF-8"@, true).len() == 0,
{
    lemma_labels();
    if mark.len() == 3 {
        assert((mark + body).skip(3) =~= body);
    }
    if mark.len() == 2 {
        assert((mark + body).skip(2) =~= body);
    }
}

/// An encoding of no known name has no mark, and is read as UTF-8.
pub proof fn law_unknown_label(bytes: Seq<u8>, encoding: Seq<char>, bom: bool)
    requires
        !seq!["UTF-8"@, "UTF-16LE"@, "UTF-16BE"@, "Latin-1"@].contains(encoding),
    ensures
        encoding_ops::body_of(bytes, encoding, bom) == bytes,
        encoding_ops::decoded(bytes, encoding, bom) == encoding_ops::decoded(
            bytes,
            "UTF-8"@,
            false,
        ),
{
    lemma_labels();
    let list = seq!["UTF-8"@, "UTF-16LE"@, "UTF-16BE"@, "Latin-1"@];
    assert(list[0] == "UTF-8"@ && list[1] == "UTF-16LE"@ && list[2] == "UTF-16BE"@ && list[3]
        == "Latin-1"@);
    assert(encoding != list[0] && encoding != list[1] && encoding != list[2] && encoding
        != list[3]);
}

/// A marked text reads as what is behind the mark reads without one.
pub proof fn law_mark_does_not_count(mark: Seq<u8>, body: Seq<u8>)
    ensures
        mark.len() == 3 ==> encoding_ops::decoded(mark + body, "UTF-8"@, true)
            == encoding_ops::decoded(body, "UTF-8"@, false),
        mark.len() == 2 ==> encoding_ops::decoded(mark + body, "UTF-16LE"@, true)
            == encoding_ops::decoded(body, "UTF-16LE"@, false),
        mark.len() == 2 ==> encoding_ops::decoded(mark + body, "UTF-16BE"@, true)
            == encoding_ops::decoded(body, "UTF-16BE"@, false),
        encoding_ops::decoded(body, "Latin-1"@, true) == encoding_ops::decoded(
            body,
            "Latin-1"@,
            false,
        ),
{
    lemma_labels();
    law_mark_is_stripped(mark, body, "UTF-8"@);
}

/// Read as UTF-8, the bytes of a text are the text; bytes of none are repaired.
pub proof fn law_utf8_text(s: Seq<char>, bytes: Seq<u8>)
    ensures
        encoding_ops::decoded(encode_utf8(s), "UTF-8"@, false) == s,
        !valid_utf8(bytes) ==> encoding_ops::decoded(bytes, "UTF-8"@, false)
            == utf8::utf8_repaired(bytes),
        utf8::lossy(encode_utf8(s)) == s,
        !valid_utf8(bytes) ==> utf8::lossy(bytes) == utf8::utf8_repaired(bytes),
{
    lemma_labels();
    encode_utf8_valid_utf8(s);
    encode_utf8_decode_utf8(s);
}

/// A unit that is no surrogate.
pub open spec fn is_plain_unit(u: u16) -> bool {
    u < 0xD800 || u >= 0xE000
}

/// The units of some bytes: half as many, each made up of its two bytes; a byte left over
/// does not count.
pub proof fn law_units_of_bytes(bytes: Seq<u8>, big: bool, i: int)
    requires
        0 <= i < bytes.len() / 2,
    ensures
        utf16::bytes_units(bytes, big).len() == bytes.len() / 2,
        is_unit_at(bytes, 2 * i, utf16::bytes_units(bytes, big)[i], big),
{
}

/// Read as UTF-16, bytes are the text of their units; two bytes less one are nothing.
pub proof fn law_utf16_text(bytes: Seq<u8>)
    ensures
        encoding_ops::decoded(bytes, "UTF-16LE"@, false) == utf16::units_text(
            utf16::bytes_units(bytes, false),
        ),
        encoding_ops::decoded(bytes, "UTF-16BE"@, false) == utf16::units_text(
            utf16::bytes_units(bytes, true),
        ),
        bytes.len() < 2 ==> encoding_ops::decoded(bytes, "UTF-16LE"@, false).len() == 0,
        bytes.len() < 2 ==> encoding_ops::decoded(bytes, "UTF-16BE"@, false).len() == 0,
{
    lemma_labels();
}

/// Read unit by unit: a plain unit is the character of its number, a high surrogate and a
/// low one behind it are the character that they make up, and any other surrogate is the
/// replacement character. What follows is read in the same way.
pub proof fn law_text_of_units(u: u16, v: u16, rest: Seq<u16>)
    ensures
        utf16::units_text(Seq::empty()) == Seq::<char>::empty(),
        is_plain_unit(u) ==> ({
            let s = utf16::units_text(seq![u] + rest);
            &&& s.len() == 1 + utf16::units_text(rest).len()
            &&& s[0] as u32 == u as u32
            &&& s.skip(1) == utf16::units_text(rest)
        }),
        0xD800 <= u < 0xDC00 && 0xDC00 <= v < 0xE000 ==> ({
            let s = utf16::units_text(seq![u, v] + rest);
            &&& s.len() == 1 + utf16::units_text(rest).len()
            &&& s[0] as u32 == 0x10000 + (u - 0xD800) * 0x400 + (v - 0xDC00)
            &&& s.skip(1) == utf16::units_text(rest)
        }),
        0xDC00 <= u < 0xE000 || (0xD800 <= u < 0xDC00 && (rest.len() == 0 || rest[0] < 0xDC00
            || rest[0] >= 0xE000)) ==> utf16::units_text(seq![u] + rest) == seq!['\u{fffd}']
            + utf16::units_text(rest),
{
    let one = seq![u] + rest;
    assert(one.skip(1) =~= rest);
    if rest.len() > 0 {
        assert(one[1] == rest[0]);
    }
    if is_plain_unit(u) {
        assert(utf16::units_text(one) =~= seq![u as char] + utf16::units_text(rest));
        assert(utf16::units_text(one).skip(1) =~= utf16::units_text(rest));
    }
    let two = seq![u, v] + rest;
    assert(two.skip(2) =~= rest);
    if 0xD800 <= u < 0xDC00 && 0xDC00 <= v < 0xE000 {
        let number = 0x10000 + (u - 0xD800) * 0x400 + (v - 0xDC00);
        assert(0x10000 <= number <= 0x10FFFF);
        assert(utf16::units_text(two) =~= seq![utf16::pair_char(u, v)] + utf16::units_text(rest));
        assert(utf16::units_text(two).skip(1) =~= utf16::units_text(rest));
    }
}

// ── telling an encoding ─────────────────────────────────────────────────────────

/// Bytes that begin with a mark are what the mark says, whatever follows.
pub proof fn law_mark_decides(rest: Seq<u8>)
    ensures
        encoding_ops::sniffed(seq![0xEFu8, 0xBBu8, 0xBFu8] + rest) == ("UTF-8"@, true),
        encoding_ops::sniffed(seq![0xFFu8, 0xFEu8] + rest) == ("UTF-16LE"@, true),
        encoding_ops::sniffed(seq![0xFEu8, 0xFFu8] + rest) == ("UTF-16BE"@, true),
{
    let a = seq![0xEFu8, 0xBBu8, 0xBFu8] + rest;
    let b = seq![0xFFu8, 0xFEu8] + rest;
    let c = seq![0xFEu8, 0xFFu8] + rest;
    assert(a.take(3) =~= encoding_ops::utf8_mark());
    assert(b.take(2) =~= encoding_ops::utf16_mark(false));
    assert(c.take(2) =~= encoding_ops::utf16_mark(true));
    if encoding_ops::begins_with(b, encoding_ops::utf8_mark()) {
        assert(b.take(3)[0] == b[0]);
    }
    if encoding_ops::begins_with(c, encoding_ops::utf8_mark()) {
        assert(c.take(3)[0] == c[0]);
    }
    if encoding_ops::begins_with(c, encoding_ops::utf16_mark(false)) {
        assert(c.take(2)[0] == c[0]);
    }
}

/// Bytes that begin with no mark.
pub open spec fn has_no_mark(bytes: Seq<u8>) -> bool {
    &&& bytes.len() >= 3 ==> !(bytes[0] == 0xEF && bytes[1] == 0xBB && bytes[2] == 0xBF)
    &&& bytes.len() >= 2 ==> !(bytes[0] == 0xFF && bytes[1] == 0xFE)
    &&& bytes.len() >= 2 ==> !(bytes[0] == 0xFE && bytes[1] == 0xFF)
}

/// No mark is seen where there is none.
proof fn lemma_no_mark(bytes: Seq<u8>)
    requires
        has_no_mark(bytes),
    ensures
        !encoding_ops::begins_with(bytes, encoding_ops::utf8_mark()),
        !encoding_ops::begins_with(bytes, encoding_ops::utf16_mark(false)),
        !encoding_ops::begins_with(bytes, encoding_ops::utf16_mark(true)),
{
    if bytes.len() >= 3 {
        assert(forall|i: int| 0 <= i < 3 ==> bytes[i] == #[trigger] bytes.take(3)[i]);
    }
    if bytes.len() >= 2 {
        assert(forall|i: int| 0 <= i < 2 ==> bytes[i] == #[trigger] bytes.take(2)[i]);
    }
}

/// A NUL stands among the first 4096 bytes, at place `i`.
pub open spec fn is_early_nul(bytes: Seq<u8>, i: int) -> bool {
    0 <= i < bytes.len() && i < 4096 && bytes[i] == 0
}

/// Without a mark and without a NUL among the first 4096 bytes, valid UTF-8 is UTF-8 and
/// anything else is Latin-1.
pub proof fn law_plain_bytes(bytes: Seq<u8>)
    requires
        has_no_mark(bytes),
        forall|i: int| !is_early_nul(bytes, i),
    ensures
        valid_utf8(bytes) ==> encoding_ops::sniffed(bytes) == ("UTF-8"@, false),
        !valid_utf8(bytes) ==> encoding_ops::sniffed(bytes) == ("Latin-1"@, false),
{
    lemma_no_mark(bytes);
    let sample = encoding_ops::sniff_sample(bytes);
    if sample.contains(0) {
        let i = choose|i: int| 0 <= i < sample.len() && sample[i] == 0;
        assert(is_early_nul(bytes, i));
    }
}

/// The NULs of a sample at even or at odd places.
spec fn nul_wanted(sample: Seq<u8>, parity: int) -> spec_fn(int) -> bool {
    |i: int| 0 <= i < sample.len() && sample[i] == 0 && i % 2 == parity
}

/// As many NULs are counted as there are.
proof fn lemma_nuls(sample: Seq<u8>, parity: int) -> (at: Seq<int>)
    ensures
        picks::lists_all(at, nul_wanted(sample, parity), picks::ascending()),
        encoding_ops::count_nuls(sample, parity) == at.len(),
    decreases sample.len(),
{
    let wanted = nul_wanted(sample, parity);
    if sample.len() == 0 {
        picks::lemma_lists_none(wanted, picks::ascending());
        Seq::empty()
    } else {
        let t = sample.drop_last();
        let i = sample.len() - 1;
        let before = lemma_nuls(t, parity);
        let in_before = nul_wanted(t, parity);
        assert forall|k: int| k != i implies (#[trigger] wanted(k) <==> in_before(k)) by {
            if 0 <= k < t.len() {
                assert(t[k] == sample[k]);
            }
        }
        picks::lemma_lists_next(before, i, in_before, wanted, picks::ascending());
        picks::with_next(before, i, wanted(i))
    }
}

/// Without a mark, NULs among the first 4096 bytes mean UTF-16: with the low byte first
/// where at least as many stand at odd places as at even ones, else with the high byte
/// first.
pub proof fn law_nuls_decide(bytes: Seq<u8>) -> (at: (Seq<int>, Seq<int>))
    requires
        has_no_mark(bytes),
        exists|i: int| is_early_nul(bytes, i),
    ensures
        picks::lists_all(
            at.0,
            |i: int| is_early_nul(bytes, i) && i % 2 == 0,
            |a: int, b: int| a < b,
        ),
        picks::lists_all(
            at.1,
            |i: int| is_early_nul(bytes, i) && i % 2 == 1,
            |a: int, b: int| a < b,
        ),
        at.1.len() >= at.0.len() ==> encoding_ops::sniffed(bytes) == ("UTF-16LE"@, false),
        at.1.len() < at.0.len() ==> encoding_ops::sniffed(bytes) == ("UTF-16BE"@, false),
{
    lemma_no_mark(bytes);
    let sample = encoding_ops::sniff_sample(bytes);
    let i = choose|i: int| is_early_nul(bytes, i);
    assert(sample[i] == 0);
    let even = lemma_nuls(sample, 0);
    let odd = lemma_nuls(sample, 1);
    let in_even = |i: int| is_early_nul(bytes, i) && i % 2 == 0;
    let in_odd = |i: int| is_early_nul(bytes, i) && i % 2 == 1;
    let even_wanted = nul_wanted(sample, 0);
    let odd_wanted = nul_wanted(sample, 1);
    assert forall|k: int| even_wanted(k) == #[trigger] in_even(k) by {}
    assert forall|k: int| odd_wanted(k) == #[trigger] in_odd(k) by {}
    assert(even_wanted =~= in_even);
    assert(odd_wanted =~= in_odd);
    (even, odd)
}

// ── line endings ────────────────────────────────────────────────────────────────

/// A line feed with a carriage return before it stands somewhere.
pub open spec fn has_crlf(s: Seq<char>) -> bool {
    exists|a: Seq<char>, b: Seq<char>| s == #[trigger] (a.push('\r').push('\n') + b)
}

/// A line feed without one stands somewhere.
pub open spec fn has_bare_feed(s: Seq<char>) -> bool {
    exists|a: Seq<char>, b: Seq<char>|
        s == #[trigger] (a.push('\n') + b) && (a.len() == 0 || a.last() != '\r')
}

/// The line endings of a text are those that stand in it: of both kinds, of one, or none.
pub proof fn law_line_ending(s: Seq<char>)
    ensures
        has_crlf(s) && has_bare_feed(s) ==> encoding_ops::line_ending(s) == "Mixed"@,
        has_crlf(s) && !has_bare_feed(s) ==> encoding_ops::line_ending(s) == "CRLF"@,
        !has_crlf(s) && has_bare_feed(s) ==> encoding_ops::line_ending(s) == "LF"@,
        !has_crlf(s) && !has_bare_feed(s) ==> encoding_ops::line_ending(s) == "none"@,
{
    if has_crlf(s) {
        let (a, b) = choose|a: Seq<char>, b: Seq<char>|
            s == #[trigger] (a.push('\r').push('\n') + b);
        assert(encoding_ops::crlf_at(s, a.len() as int + 1));
    }
    if exists|i: int| encoding_ops::crlf_at(s, i) {
        let i = choose|i: int| encoding_ops::crlf_at(s, i);
        assert(s =~= s.take(i - 1).push('\r').push('\n') + s.skip(i + 1));
    }
    if has_bare_feed(s) {
        let (a, b) = choose|a: Seq<char>, b: Seq<char>|
            s == #[trigger] (a.push('\n') + b) && (a.len() == 0 || a.last() != '\r');
        if a.len() > 0 {
            assert(s[a.len() - 1] == a.last());
        }
        assert(encoding_ops::bare_feed_at(s, a.len() as int));
    }
    if exists|i: int| encoding_ops::bare_feed_at(s, i) {
        let i = choose|i: int| encoding_ops::bare_feed_at(s, i);
        assert(s =~= s.take(i).push('\n') + s.skip(i + 1));
    }
}

// ── files ───────────────────────────────────────────────────────────────────────

/// A file is looked at just where its size is known and at most 16 MiB and it could be
/// read; else the reason is told, its size before its bytes.
pub proof fn law_files_looked_at(size: Result<u64, String>, bytes: Result<Vec<u8>, String>)
    ensures
        encoding_ops::load_refusal(size, bytes) is None <==> size is Ok && size->Ok_0 <= 0x100_0000
            && bytes is Ok,
        size is Err ==> encoding_ops::load_refusal(size, bytes) == Some(size->Err_0@),
        size is Ok && size->Ok_0 > 0x100_0000 ==> encoding_ops::load_refusal(size, bytes) == Some(
            "file too large"@,
        ),
        size is Ok && size->Ok_0 <= 0x100_0000 && bytes is Err ==> encoding_ops::load_refusal(
            size,
            bytes,
        ) == Some(bytes->Err_0@),
{
}

/// What is reported of a file is what its bytes tell: their encoding, the line endings of
/// the text that they are in it, and whether what is behind the mark is valid UTF-8.
pub proof fn law_report(info: EncodingInfo, size: u64, bytes: Seq<u8>)
    requires
        encoding_ops::is_info_of(info, size, bytes),
    ensures
        (info.encoding@, info.bom) == encoding_ops::sniffed(bytes),
        info.line_ending@ == encoding_ops::line_ending(
            encoding_ops::decoded(bytes, info.encoding@, info.bom),
        ),
        info.valid_utf8 == valid_utf8(
            encoding_ops::body_of(bytes, info.encoding@, info.bom),
        ),
        info.bytes == size,
{
}

/// A conversion writes what the bytes read as, in the target; it does so just where that is
/// asked for and is not what the file already holds.
pub proof fn law_conversion(
    r: ConvertEncResult,
    write: Option<Vec<u8>>,
    bytes: Seq<u8>,
    to: Seq<char>,
    apply: bool,
)
    requires
        encoding_ops::is_conversion(r, write, bytes, to, apply),
        encoding_ops::converted(bytes, to) is Some,
    ensures
        r.from@ == encoding_ops::sniffed(bytes).0,
        r.to@ == text::lower(text::trim(to)),
        ({
            let s = encoding_ops::decoded(bytes, r.from@, encoding_ops::sniffed(bytes).1);
            let out = encoding_ops::encoded(s, r.to@);
            &&& out is Some
            &&& r.bytes_before == bytes.len()
            &&& r.bytes_after == out->0.len()
            &&& r.differs <==> out->0 != bytes
            &&& r.applied <==> apply && out->0 != bytes
            &&& write is Some <==> r.applied
            &&& write is Some ==> write->0@ == out->0
        }),
{
}

/// A conversion is refused just where the file is not looked at or there is no such target.
pub proof fn law_conversion_refused(
    size: Result<u64, String>,
    bytes: Result<Vec<u8>, String>,
    to: Seq<char>,
)
    ensures
        encoding_ops::load_refusal(size, bytes) is Some ==> encoding_ops::convert_refusal(
            size,
            bytes,
            to,
        ) == encoding_ops::load_refusal(size, bytes),
        encoding_ops::load_refusal(size, bytes) is None ==> (if seq![
            "utf-8"@,
            "utf-16le"@,
            "utf-16be"@,
            "latin1"@,
        ].contains(text::lower(text::trim(to))) {
            encoding_ops::convert_refusal(size, bytes, to) is None
        } else {
            encoding_ops::convert_refusal(size, bytes, to) == Some(
                "unknown target encoding: "@ + text::lower(text::trim(to)),
            )
        }),
{
    if encoding_ops::load_refusal(size, bytes) is None {
        law_targets(encoding_ops::sniffed_text(bytes->Ok_0@), text::lower(text::trim(to)));
    }
}

/// A text has bytes in the four targets and in no other; another is refused by its name.
pub proof fn law_encode(s: Seq<char>, target: Seq<char>, r: Result<Vec<u8>, String>)
    requires
        encoding_ops::is_encoded(s, target, r),
    ensures
        r is Ok <==> seq!["utf-8"@, "utf-16le"@, "utf-16be"@, "latin1"@].contains(target),
        r is Ok ==> Some(r->Ok_0@) == encoding_ops::encoded(s, target),
        r is Err ==> r->Err_0@ == "unknown target encoding: "@ + target,
{
    law_targets(s, target);
}

/// A report comes just where the file is looked at, and is one of its size and its bytes.
pub proof fn law_detection(
    size: Result<u64, String>,
    bytes: Result<Vec<u8>, String>,
    r: Result<EncodingInfo, String>,
)
    requires
        encoding_ops::is_detected(size, bytes, r),
    ensures
        r is Ok <==> size is Ok && size->Ok_0 <= 0x100_0000 && bytes is Ok,
        r is Ok ==> r->Ok_0.bytes == size->Ok_0 && encoding_ops::is_info_of(
            r->Ok_0,
            size->Ok_0,
            bytes->Ok_0@,
        ),
        size is Err ==> r->Err_0@ == size->Err_0@,
        size is Ok && size->Ok_0 > 0x100_0000 ==> r->Err_0@ == "file too large"@,
        size is Ok && size->Ok_0 <= 0x100_0000 && bytes is Err ==> r->Err_0@ == bytes->Err_0@,
{
    law_files_looked_at(size, bytes);
}

/// A look at a conversion tells what the conversion does, and has nothing written. A
/// conversion writes just where it makes a difference. Both come where a report of the file
/// would, and name the encoding that it names.
pub proof fn law_look_and_convert(
    size: Result<u64, String>,
    bytes: Result<Vec<u8>, String>,
    to: Seq<char>,
    no: Option<bool>,
    look: Result<(ConvertEncResult, Option<Vec<u8>>), String>,
    done: Result<(ConvertEncResult, Option<Vec<u8>>), String>,
    report: Result<EncodingInfo, String>,
)
    requires
        no == Some(false) || no is None,
        encoding_ops::is_converted(size, bytes, to, no, look),
        encoding_ops::is_converted(size, bytes, to, Some(true), done),
        encoding_ops::is_detected(size, bytes, report),
    ensures
        look is Ok <==> done is Ok,
        look is Ok <==> report is Ok && seq![
            "utf-8"@,
            "utf-16le"@,
            "utf-16be"@,
            "latin1"@,
        ].contains(text::lower(text::trim(to))),
        look is Err ==> look->Err_0@ == done->Err_0@,
        report is Err ==> look is Err && look->Err_0@ == report->Err_0@,
        look is Ok ==> {
            let a = look->Ok_0.0;
            let b = done->Ok_0.0;
            &&& a.from@ == b.from@ && a.from@ == report->Ok_0.encoding@
            &&& a.to@ == b.to@ && a.to@ == text::lower(text::trim(to))
            &&& a.bytes_before == b.bytes_before && a.bytes_before == bytes->Ok_0@.len()
            &&& a.bytes_after == b.bytes_after
            &&& a.differs == b.differs
            &&& !a.applied && look->Ok_0.1 is None
            &&& b.applied == b.differs
            &&& done->Ok_0.1 is Some <==> b.differs
            &&& b.differs ==> done->Ok_0.1->0@.len() == b.bytes_after && done->Ok_0.1->0@
                != bytes->Ok_0@
        },
{
    law_files_looked_at(size, bytes);
    law_conversion_refused(size, bytes, to);
}

} // verus!
