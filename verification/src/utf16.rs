//! UTF-16: code units, and their bytes in either order.

use vstd::prelude::*;
use vstd::utf8::*;

verus! {

/// `char::from_u32` gives the character of a Unicode scalar value, and nothing for any
/// other number.
pub assume_specification[ char::from_u32 ](v: u32) -> (r: Option<char>)
    ensures
        r == (if is_scalar(v) {
            Some(v as char)
        } else {
            None
        }),
;

// ── code units ──────────────────────────────────────────────────────────────────

/// A unit that opens a surrogate pair.
pub open spec fn is_high(u: u16) -> bool {
    0xD800 <= u <= 0xDBFF
}

/// A unit that closes a surrogate pair.
pub open spec fn is_low(u: u16) -> bool {
    0xDC00 <= u <= 0xDFFF
}

/// The units of one character: itself, or a surrogate pair beyond the first plane.
pub open spec fn char_units(c: char) -> Seq<u16> {
    let v = c as u32;
    if v < 0x10000 {
        seq![v as u16]
    } else {
        seq![(0xD800 + (v - 0x10000) / 0x400) as u16, (0xDC00 + (v - 0x10000) % 0x400) as u16]
    }
}

/// The units of a text.
pub open spec fn text_units(s: Seq<char>) -> Seq<u16>
    decreases s.len(),
{
    if s.len() == 0 {
        Seq::empty()
    } else {
        char_units(s[0]) + text_units(s.drop_first())
    }
}

/// The character of a surrogate pair.
pub open spec fn pair_char(high: u16, low: u16) -> char {
    (0x10000 + (high - 0xD800) * 0x400 + (low - 0xDC00)) as char
}

/// The text of some units. A surrogate without its partner becomes the replacement
/// character.
pub open spec fn units_text(units: Seq<u16>) -> Seq<char>
    decreases units.len(),
{
    if units.len() == 0 {
        Seq::empty()
    } else if !is_high(units[0]) && !is_low(units[0]) {
        seq![units[0] as char] + units_text(units.skip(1))
    } else if is_high(units[0]) && units.len() > 1 && is_low(units[1]) {
        seq![pair_char(units[0], units[1])] + units_text(units.skip(2))
    } else {
        seq!['\u{fffd}'] + units_text(units.skip(1))
    }
}

/// The units of a character give the character back.
proof fn lemma_char_units(c: char)
    ensures
        ({
            let units = char_units(c);
            ||| units.len() == 1 && !is_high(units[0]) && !is_low(units[0]) && units[0] as char
                == c
            ||| units.len() == 2 && is_high(units[0]) && is_low(units[1]) && pair_char(
                units[0],
                units[1],
            ) == c
        }),
{
    let v = c as u32;
    char_is_scalar(c);
    char_u32_cast(c, v);
    let units = char_units(c);
    if v < 0x10000 {
        assert(units[0] as u32 == v);
        assert(units[0] as char == v as char);
    } else {
        assert(0x10000 + (units[0] - 0xD800) * 0x400 + (units[1] - 0xDC00) == v);
        assert(pair_char(units[0], units[1]) == v as char);
    }
}

/// Decoding the units of a text gives the text back.
pub proof fn law_units_read_back(s: Seq<char>)
    ensures
        units_text(text_units(s)) == s,
    decreases s.len(),
{
    if s.len() > 0 {
        law_units_read_back(s.drop_first());
        lemma_char_units(s[0]);
        let units = text_units(s);
        assert(units.skip(char_units(s[0]).len() as int) == text_units(s.drop_first()));
        assert(seq![s[0]] + s.drop_first() == s);
    }
}

/// The text of some units. A surrogate without its partner becomes the replacement
/// character.
pub fn decode_units(units: &Vec<u16>) -> (s: String)
    ensures
        s@ == units_text(units@),
{
    let mut s = String::new();
    let mut i: usize = 0;
    assert(units@.skip(0) == units@);
    while i < units.len()
        invariant
            i <= units@.len(),
            units_text(units@) == s@ + units_text(units@.skip(i as int)),
        decreases units@.len() - i,
    {
        let ghost rest = units@.skip(i as int);
        let ghost done = s@;
        let u: u16 = units[i];
        assert(rest.skip(1) == units@.skip(i + 1));
        if u < 0xD800 || 0xDFFF < u {
            let c: char = char::from_u32(u as u32).unwrap_or('\u{fffd}');
            s.push(c);
            i += 1;
            assert(done + (seq![c] + units_text(units@.skip(i as int))) == s@ + units_text(
                units@.skip(i as int),
            ));
        } else if u <= 0xDBFF && i + 1 < units.len() && 0xDC00 <= units[i + 1] && units[i + 1]
            <= 0xDFFF {
            let v: u32 = 0x10000 + (u as u32 - 0xD800) * 0x400 + (units[i + 1] as u32 - 0xDC00);
            let c: char = char::from_u32(v).unwrap_or('\u{fffd}');
            s.push(c);
            i += 2;
            assert(rest.skip(2) == units@.skip(i as int));
            assert(done + (seq![c] + units_text(units@.skip(i as int))) == s@ + units_text(
                units@.skip(i as int),
            ));
        } else {
            s.push('\u{fffd}');
            i += 1;
            assert(done + (seq!['\u{fffd}'] + units_text(units@.skip(i as int))) == s@ + units_text(
                units@.skip(i as int),
            ));
        }
    }
    s
}

/// A text of one more character has the units of that character behind the others.
pub proof fn lemma_units_push(s: Seq<char>, c: char)
    ensures
        text_units(s.push(c)) == text_units(s) + char_units(c),
    decreases s.len(),
{
    if s.len() == 0 {
        assert(s.push(c).drop_first() == Seq::<char>::empty());
        assert(text_units(Seq::<char>::empty()) == Seq::<u16>::empty());
        assert(s.push(c)[0] == c);
        assert(text_units(s.push(c)) == char_units(c) + Seq::<u16>::empty());
        assert(text_units(s) + char_units(c) == char_units(c));
    } else {
        lemma_units_push(s.drop_first(), c);
        assert(s.push(c).drop_first() == s.drop_first().push(c));
        assert(char_units(s[0]) + (text_units(s.drop_first()) + char_units(c)) == char_units(s[0])
            + text_units(s.drop_first()) + char_units(c));
    }
}

/// The units of a text.
pub fn encode_units(s: &str) -> (units: Vec<u16>)
    ensures
        units@ == text_units(s@),
{
    let mut units: Vec<u16> = Vec::new();
    assert(s@.take(0) == Seq::<char>::empty());
    for c in it: s.chars()
        invariant
            it.seq() == s@,
            units@ == text_units(s@.take(it.index() as int)),
    {
        proof {
            assert(s@.take(it.index() + 1) == s@.take(it.index() as int).push(c));
            lemma_units_push(s@.take(it.index() as int), c);
            char_is_scalar(c);
        }
        let ghost before = units@;
        let v: u32 = c as u32;
        if v < 0x10000 {
            units.push(v as u16);
            assert(units@ == before + char_units(c));
        } else {
            units.push((0xD800 + (v - 0x10000) / 0x400) as u16);
            units.push((0xDC00 + (v - 0x10000) % 0x400) as u16);
            assert(units@ == before + char_units(c));
        }
    }
    assert(s@.take(s@.len() as int) == s@);
    units
}

// ── bytes ───────────────────────────────────────────────────────────────────────

/// The two bytes of a unit, the high one first where `big` says so.
pub open spec fn unit_bytes(u: u16, big: bool) -> Seq<u8> {
    let low = (u % 256) as u8;
    let high = (u / 256) as u8;
    if big {
        seq![high, low]
    } else {
        seq![low, high]
    }
}

/// The unit of two bytes.
pub open spec fn bytes_unit(a: u8, b: u8, big: bool) -> u16 {
    if big {
        (a * 256 + b) as u16
    } else {
        (b * 256 + a) as u16
    }
}

/// The bytes of some units, one unit behind the other.
pub open spec fn units_bytes(units: Seq<u16>, big: bool) -> Seq<u8> {
    Seq::new(2 * units.len(), |i: int| unit_bytes(units[i / 2], big)[i % 2])
}

/// The units of some bytes, two by two. A last byte without a partner is left out.
pub open spec fn bytes_units(bytes: Seq<u8>, big: bool) -> Seq<u16> {
    Seq::new(bytes.len() / 2, |i: int| bytes_unit(bytes[2 * i], bytes[2 * i + 1], big))
}

/// Reading the bytes of some units gives the units back.
pub proof fn law_bytes_read_back(units: Seq<u16>, big: bool)
    ensures
        bytes_units(units_bytes(units, big), big) == units,
{
    let bytes = units_bytes(units, big);
    assert forall|i: int| 0 <= i < units.len() implies bytes_units(bytes, big)[i] == units[i] by {
        assert(bytes[2 * i] == unit_bytes(units[i], big)[0]);
        assert((2 * i + 1) / 2 == i && (2 * i + 1) % 2 == 1);
        assert(bytes[2 * i + 1] == unit_bytes(units[i], big)[1]);
    }
}

/// Writing the units of an even number of bytes gives the bytes back.
pub proof fn law_units_write_back(bytes: Seq<u8>, big: bool)
    requires
        bytes.len() % 2 == 0,
    ensures
        units_bytes(bytes_units(bytes, big), big) == bytes,
{
    let units = bytes_units(bytes, big);
    assert forall|i: int| 0 <= i < bytes.len() implies units_bytes(units, big)[i] == bytes[i] by {
        assert(units[i / 2] == bytes_unit(bytes[2 * (i / 2)], bytes[2 * (i / 2) + 1], big));
    }
}

/// The units of some bytes, two by two.
pub fn read_units(bytes: &[u8], big: bool) -> (units: Vec<u16>)
    ensures
        units@ == bytes_units(bytes@, big),
{
    let mut units: Vec<u16> = Vec::new();
    let n: usize = bytes.len() / 2;
    let mut i: usize = 0;
    while i < n
        invariant
            n == bytes.len() / 2,
            i <= n,
            units@ == bytes_units(bytes@, big).take(i as int),
        decreases n - i,
    {
        let a: u8 = bytes[2 * i];
        let b: u8 = bytes[2 * i + 1];
        let u: u16 = if big {
            a as u16 * 256 + b as u16
        } else {
            b as u16 * 256 + a as u16
        };
        units.push(u);
        i += 1;
        assert(bytes_units(bytes@, big).take(i as int) == bytes_units(bytes@, big).take(
            i - 1,
        ).push(u));
    }
    assert(bytes_units(bytes@, big).take(n as int) == bytes_units(bytes@, big));
    units
}

/// Write some units behind the bytes that are there.
pub fn write_units(units: &Vec<u16>, big: bool, out: &mut Vec<u8>)
    ensures
        final(out)@ == old(out)@ + units_bytes(units@, big),
{
    let ghost before = out@;
    let mut i: usize = 0;
    assert(before + units_bytes(units@.take(0), big) == before);
    while i < units.len()
        invariant
            i <= units@.len(),
            out@ == before + units_bytes(units@.take(i as int), big),
        decreases units@.len() - i,
    {
        let u: u16 = units[i];
        let low: u8 = (u % 256) as u8;
        let high: u8 = (u / 256) as u8;
        if big {
            out.push(high);
            out.push(low);
        } else {
            out.push(low);
            out.push(high);
        }
        i += 1;
        assert(units_bytes(units@.take(i as int), big) == units_bytes(units@.take(i - 1), big)
            + unit_bytes(u, big));
        assert(out@ == before + units_bytes(units@.take(i as int), big));
    }
    assert(units@.take(units@.len() as int) == units@);
}

} // verus!
