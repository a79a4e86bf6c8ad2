//! What holds of writing a text in an encoding and reading it back.

use crate::encoding_ops;
use crate::utf16;
use vstd::prelude::*;
use vstd::utf8::*;

verus! {

/// The names of the encodings are different.
proof fn lemma_labels()
    ensures
        "UTF-8"@ != "UTF-16LE"@,
        "UTF-8"@ != "UTF-16BE"@,
        "UTF-8"@ != "Latin-1"@,
        "UTF-16LE"@ != "UTF-16BE"@,
        "UTF-16LE"@ != "Latin-1"@,
        "UTF-16BE"@ != "Latin-1"@,
{
    reveal_strlit("UTF-8");
    reveal_strlit("UTF-16LE");
    reveal_strlit("UTF-16BE");
    reveal_strlit("Latin-1");
    assert("UTF-8"@.len() == 5);
    assert("UTF-16LE"@.len() == 8);
    assert("UTF-16BE"@.len() == 8);
    assert("Latin-1"@.len() == 7);
    assert("UTF-16LE"@[6] == 'L');
    assert("UTF-16BE"@[6] == 'B');
}

/// What is written in UTF-16, in either byte order, is recognised by its byte-order mark
/// and read back as the text that was written.
pub proof fn law_utf16_read_back(s: Seq<char>, big: bool)
    ensures
        ({
            let out = encoding_ops::utf16_bytes(s, big);
            &&& encoding_ops::sniffed(out) == (if big {
                "UTF-16BE"@
            } else {
                "UTF-16LE"@
            }, true)
            &&& encoding_ops::sniffed_text(out) == s
        }),
{
    let out = encoding_ops::utf16_bytes(s, big);
    let units = utf16::text_units(s);
    lemma_labels();
    assert(out[0] == encoding_ops::utf16_mark(big)[0]);
    assert(out.take(2) == encoding_ops::utf16_mark(big));
    if encoding_ops::begins_with(out, encoding_ops::utf8_mark()) {
        assert(out.take(3)[0] == 0xEF);
    }
    if encoding_ops::begins_with(out, encoding_ops::utf16_mark(!big)) {
        assert(out.take(2)[0] == encoding_ops::utf16_mark(!big)[0]);
    }
    assert(out.skip(2) == utf16::units_bytes(units, big));
    utf16::law_bytes_read_back(units, big);
    utf16::law_units_read_back(s);
}

/// What is written in UTF-8 has no byte-order mark, of whatever encoding, unless the text
/// itself begins with the character that makes one up.
pub proof fn law_utf8_has_no_mark(s: Seq<char>)
    requires
        s.len() > 0 ==> s[0] != '\u{feff}',
    ensures
        !encoding_ops::sniffed(encode_utf8(s)).1,
{
    let out = encode_utf8(s);
    if s.len() > 0 {
        encode_utf8_first_scalar(s);
        if encoding_ops::begins_with(out, encoding_ops::utf8_mark()) {
            assert(forall|i: int| 0 <= i < 3 ==> out[i] == #[trigger] out.take(3)[i]);
            assert(codepoint_width_3(0xEF, 0xBB, 0xBF) == 0xFEFF) by (bit_vector);
            assert(decode_first_scalar(out) == 0xFEFF);
            char_u32_cast(s[0], 0xFEFF);
        }
        if encoding_ops::begins_with(out, encoding_ops::utf16_mark(false)) {
            assert(out.take(2)[0] == 0xFF);
        }
        if encoding_ops::begins_with(out, encoding_ops::utf16_mark(true)) {
            assert(out.take(2)[0] == 0xFE);
        }
    } else {
        assert(out.len() == 0);
    }
}

/// A text whose UTF-8 bytes are taken for nothing else: it does not begin with the
/// character that makes up the byte-order mark, and no NUL stands at its start.
pub open spec fn is_plain(s: Seq<char>) -> bool {
    &&& s.len() > 0 ==> s[0] != '\u{feff}'
    &&& !encoding_ops::sniff_sample(encode_utf8(s)).contains(0)
}

/// What is written in UTF-8 is recognised without a byte-order mark and read back as the
/// text that was written.
pub proof fn law_utf8_read_back(s: Seq<char>)
    requires
        is_plain(s),
    ensures
        encoding_ops::sniffed(encode_utf8(s)) == ("UTF-8"@, false),
        encoding_ops::sniffed_text(encode_utf8(s)) == s,
{
    lemma_labels();
    encode_utf8_valid_utf8(s);
    encode_utf8_decode_utf8(s);
    law_utf8_has_no_mark(s);
}

/// Every character has a byte in Latin-1.
pub open spec fn is_latin1(s: Seq<char>) -> bool {
    forall|i: int| 0 <= i < s.len() ==> #[trigger] s[i] <= '\u{ff}'
}

/// A text that Latin-1 can hold is read back from its bytes.
pub proof fn law_latin1_read_back(s: Seq<char>)
    requires
        is_latin1(s),
    ensures
        encoding_ops::decoded(encoding_ops::latin1_bytes(s), "Latin-1"@, false) == s,
{
    lemma_labels();
    let bytes = encoding_ops::latin1_bytes(s);
    assert forall|i: int| 0 <= i < s.len() implies encoding_ops::latin1_text(bytes)[i] == s[i] by {
        lemma_latin1_char(s[i]);
    }
    assert(encoding_ops::latin1_text(bytes) == s);
}

/// A character up to the last of Latin-1 is the character of its byte.
proof fn lemma_latin1_char(c: char)
    requires
        c <= '\u{ff}',
    ensures
        encoding_ops::latin1_byte(c) as char == c,
        encoding_ops::latin1_byte(c) as u32 == c as u32,
{
    char_u32_cast(c, c as u32);
}

/// Bytes that are read as Latin-1 are written back as they were, whatever they are.
pub proof fn law_latin1_write_back(bytes: Seq<u8>)
    ensures
        encoding_ops::latin1_bytes(encoding_ops::decoded(bytes, "Latin-1"@, false)) == bytes,
{
    lemma_labels();
    let s = encoding_ops::latin1_text(bytes);
    assert forall|i: int| 0 <= i < bytes.len() implies encoding_ops::latin1_bytes(s)[i]
        == bytes[i] by {
        lemma_byte_char(bytes[i]);
    }
    assert(encoding_ops::latin1_bytes(s) == bytes);
}

/// A byte is the byte of its character.
proof fn lemma_byte_char(b: u8)
    ensures
        encoding_ops::latin1_byte(b as char) == b,
        (b as char) as u32 == b as u32,
{
}

/// Bytes that are taken for UTF-8 without a byte-order mark are valid, and converting
/// them to UTF-8 leaves them as they are.
pub proof fn law_utf8_is_kept(bytes: Seq<u8>)
    requires
        encoding_ops::sniffed(bytes) == ("UTF-8"@, false),
    ensures
        valid_utf8(bytes),
        encoding_ops::encoded(encoding_ops::sniffed_text(bytes), "utf-8"@) == Some(bytes),
{
    lemma_labels();
    decode_utf8_encode_utf8(bytes);
}

/// The targets are different.
proof fn lemma_targets()
    ensures
        "utf-8"@ != "utf-16le"@,
        "utf-8"@ != "utf-16be"@,
        "utf-8"@ != "latin1"@,
        "utf-16le"@ != "utf-16be"@,
        "utf-16le"@ != "latin1"@,
        "utf-16be"@ != "latin1"@,
{
    reveal_strlit("utf-8");
    reveal_strlit("utf-16le");
    reveal_strlit("utf-16be");
    reveal_strlit("latin1");
    assert("utf-8"@.len() == 5);
    assert("utf-16le"@.len() == 8);
    assert("utf-16be"@.len() == 8);
    assert("latin1"@.len() == 6);
    assert("utf-16le"@[6] == 'l');
    assert("utf-16be"@[6] == 'b');
}

/// Bytes that are ASCII, with no NUL at the start.
pub open spec fn is_plain_ascii(bytes: Seq<u8>) -> bool {
    &&& forall|i: int| 0 <= i < bytes.len() ==> #[trigger] bytes[i] < 0x80
    &&& !encoding_ops::sniff_sample(bytes).contains(0)
}

/// Plain ASCII is taken for UTF-8 and is the same in Latin-1.
proof fn lemma_plain_ascii(bytes: Seq<u8>)
    requires
        is_plain_ascii(bytes),
    ensures
        encoding_ops::sniffed(bytes) == ("UTF-8"@, false),
        encoding_ops::latin1_bytes(encoding_ops::sniffed_text(bytes)) == bytes,
{
    let s = encoding_ops::latin1_text(bytes);
    lemma_labels();
    assert forall|i: int| 0 <= i < s.len() implies #[trigger] s[i] <= '\u{7f}' by {
        assert(s[i] == bytes[i] as char);
        lemma_byte_char(bytes[i]);
    }
    assert(is_ascii_chars(s));
    is_ascii_chars_encode_utf8(s);
    assert(encode_utf8(s) == bytes) by {
        assert forall|i: int| 0 <= i < bytes.len() implies encode_utf8(s)[i] == bytes[i] by {
            lemma_byte_char(bytes[i]);
        }
    }
    if s.len() > 0 {
        assert(s[0] <= '\u{7f}');
    }
    law_utf8_read_back(s);
    law_latin1_write_back(bytes);
}

/// What a text becomes in a target encoding is recognised for what it is, or reads the
/// same as if it were.
pub open spec fn is_settled(s: Seq<char>, target: Seq<char>) -> bool {
    if target == "utf-8"@ {
        is_plain(s)
    } else if target == "latin1"@ {
        let out = encoding_ops::latin1_bytes(s);
        encoding_ops::sniffed(out).0 == "Latin-1"@ || is_plain_ascii(out)
    } else {
        true
    }
}

/// A file that has been converted is not changed by converting it to the same target
/// again.
pub proof fn law_convert_twice(bytes: Seq<u8>, to: Seq<char>)
    requires
        encoding_ops::converted(bytes, to) is Some,
        is_settled(encoding_ops::sniffed_text(bytes), encoding_ops::target_of(to)),
    ensures
        encoding_ops::converted(encoding_ops::converted(bytes, to)->0, to)
            == encoding_ops::converted(bytes, to),
{
    let s = encoding_ops::sniffed_text(bytes);
    let target = encoding_ops::target_of(to);
    let out = encoding_ops::converted(bytes, to)->0;
    lemma_targets();
    lemma_labels();
    if target == "utf-8"@ {
        law_utf8_read_back(s);
    } else if target == "utf-16le"@ {
        law_utf16_read_back(s, false);
    } else if target == "utf-16be"@ {
        law_utf16_read_back(s, true);
    } else {
        if is_plain_ascii(out) {
            lemma_plain_ascii(out);
        } else {
            assert(!encoding_ops::sniffed(out).1);
            law_latin1_write_back(out);
        }
    }
}

/// A byte-order mark is no part of the text: what is behind the mark is read as if there
/// were none.
pub proof fn law_mark_is_no_text(body: Seq<u8>)
    requires
        valid_utf8(body),
    ensures
        encoding_ops::sniffed(encoding_ops::utf8_mark() + body) == ("UTF-8"@, true),
        encoding_ops::sniffed_text(encoding_ops::utf8_mark() + body) == decode_utf8(body),
{
    let bytes = encoding_ops::utf8_mark() + body;
    lemma_labels();
    assert(bytes.take(3) == encoding_ops::utf8_mark());
    assert(bytes.skip(3) == body);
}

/// The bytes of a scalar value other than zero are not zero.
proof fn lemma_scalar_bytes(v: u32)
    by (bit_vector)
    requires
        0 < v,
        v <= 0x10FFFF,
    ensures
        v <= 0x7F ==> leading_byte_width_1(v) != 0,
        leading_byte_width_2(v) != 0,
        leading_byte_width_3(v) != 0,
        leading_byte_width_4(v) != 0,
        last_continuation_byte(v) != 0,
        second_last_continuation_byte(v) != 0,
        third_last_continuation_byte(v) != 0,
{
}

/// A NUL byte comes from a NUL character at or before its place.
proof fn lemma_no_nul(s: Seq<char>, j: int)
    requires
        0 <= j < encode_utf8(s).len(),
        forall|k: int| 0 <= k <= j && k < s.len() ==> #[trigger] s[k] != '\0',
    ensures
        encode_utf8(s)[j] != 0,
    decreases s.len(),
{
    let first = encode_scalar(s[0] as u32);
    char_is_scalar(s[0]);
    if s[0] as u32 == 0 {
        char_u32_cast(s[0], 0);
    }
    lemma_scalar_bytes(s[0] as u32);
    if j >= first.len() {
        let rest = s.drop_first();
        assert forall|k: int| 0 <= k <= j - first.len() && k < rest.len() implies #[trigger] rest[k]
            != '\0' by {
            assert(rest[k] == s[k + 1]);
        }
        lemma_no_nul(rest, j - first.len());
    }
}

/// A file that is taken for Latin-1 and is converted to UTF-8 is taken for UTF-8 from then
/// on, and converting it back to Latin-1 gives its bytes back.
pub proof fn law_latin1_to_utf8_and_back(bytes: Seq<u8>)
    requires
        encoding_ops::sniffed(bytes).0 == "Latin-1"@,
    ensures
        ({
            let out = encoding_ops::encoded(encoding_ops::sniffed_text(bytes), "utf-8"@)->0;
            &&& encoding_ops::sniffed(out) == ("UTF-8"@, false)
            &&& encoding_ops::encoded(encoding_ops::sniffed_text(out), "latin1"@) == Some(bytes)
        }),
{
    lemma_labels();
    lemma_targets();
    let s = encoding_ops::sniffed_text(bytes);
    assert(s == encoding_ops::latin1_text(bytes));
    assert(is_plain(s)) by {
        if s.len() > 0 {
            lemma_byte_char(bytes[0]);
            assert(s[0] == bytes[0] as char);
        }
        let out = encode_utf8(s);
        let sample = encoding_ops::sniff_sample(out);
        if sample.contains(0) {
            let j = choose|j: int| 0 <= j < sample.len() && sample[j] == 0;
            assert(out[j] == 0);
            assert forall|k: int| 0 <= k <= j && k < s.len() implies #[trigger] s[k] != '\0' by {
                assert(s[k] == bytes[k] as char);
                lemma_byte_char(bytes[k]);
                assert(encoding_ops::sniff_sample(bytes)[k] == bytes[k]);
            }
            lemma_no_nul(s, j);
        }
    }
    law_utf8_read_back(s);
    law_latin1_write_back(bytes);
}

} // verus!
