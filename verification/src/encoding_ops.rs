//! Character encodings: telling which one a file is in, decoding it, and writing it in
//! another.
//!
//! A byte-order mark decides first. Without one, a NUL at the start means UTF-16, since
//! plain text holds none; else valid UTF-8 is UTF-8, and anything else is Latin-1.

use crate::text;
use crate::utf16;
use crate::utf8;
use vstd::prelude::*;
use vstd::slice::slice_subrange;
use vstd::string::StringExecFns;
use vstd::utf8::*;

verus! {

/// Files above this size are neither sniffed nor converted.
pub const MAX_ENCODING_BYTES: u64 = 16_777_216;

/// How many bytes at the start are searched for NULs.
pub const SNIFF_SAMPLE_BYTES: usize = 4096;

/// What is known of a file's encoding.
#[derive(Debug)]
pub struct EncodingInfo {
    /// "UTF-8", "UTF-16LE", "UTF-16BE" or "Latin-1".
    pub encoding: String,
    /// A byte-order mark was found.
    pub bom: bool,
    /// "CRLF", "LF", "Mixed" or "none".
    pub line_ending: String,
    /// The bytes behind any byte-order mark are valid UTF-8.
    pub valid_utf8: bool,
    pub bytes: u64,
}

/// What a conversion does to a file.
#[derive(Debug)]
pub struct ConvertEncResult {
    pub from: String,
    pub to: String,
    pub bytes_before: usize,
    pub bytes_after: usize,
    pub differs: bool,
    pub applied: bool,
}

// ── sniffing ────────────────────────────────────────────────────────────────────

/// The byte-order mark of UTF-8.
pub open spec fn utf8_mark() -> Seq<u8> {
    seq![0xEFu8, 0xBBu8, 0xBFu8]
}

/// The byte-order mark of UTF-16, low byte first or high byte first.
pub open spec fn utf16_mark(big: bool) -> Seq<u8> {
    if big {
        seq![0xFEu8, 0xFFu8]
    } else {
        seq![0xFFu8, 0xFEu8]
    }
}

/// `bytes` begins with `head`.
pub open spec fn begins_with(bytes: Seq<u8>, head: Seq<u8>) -> bool {
    head.len() <= bytes.len() && bytes.take(head.len() as int) == head
}

/// The bytes at the start that are searched for NULs.
pub open spec fn sniff_sample(bytes: Seq<u8>) -> Seq<u8> {
    if bytes.len() <= SNIFF_SAMPLE_BYTES {
        bytes
    } else {
        bytes.take(SNIFF_SAMPLE_BYTES as int)
    }
}

/// How many NULs stand at even offsets (`parity` 0) or at odd ones (`parity` 1).
pub open spec fn count_nuls(bytes: Seq<u8>, parity: int) -> nat
    decreases bytes.len(),
{
    if bytes.len() == 0 {
        0
    } else {
        count_nuls(bytes.drop_last(), parity) + (if bytes.last() == 0 && (bytes.len() - 1) % 2
            == parity {
            1nat
        } else {
            0
        })
    }
}

/// The encoding of some bytes, and whether a byte-order mark tells it.
pub open spec fn sniffed(bytes: Seq<u8>) -> (Seq<char>, bool) {
    if begins_with(bytes, utf8_mark()) {
        ("UTF-8"@, true)
    } else if begins_with(bytes, utf16_mark(false)) {
        ("UTF-16LE"@, true)
    } else if begins_with(bytes, utf16_mark(true)) {
        ("UTF-16BE"@, true)
    } else {
        let sample = sniff_sample(bytes);
        if !sample.contains(0) {
            if valid_utf8(bytes) {
                ("UTF-8"@, false)
            } else {
                ("Latin-1"@, false)
            }
        } else if count_nuls(sample, 1) >= count_nuls(sample, 0) {
            ("UTF-16LE"@, false)
        } else {
            ("UTF-16BE"@, false)
        }
    }
}

/// How many NULs the sample holds at even and at odd offsets.
fn nuls_by_parity(bytes: &[u8]) -> (r: (usize, usize))
    ensures
        r.0 == count_nuls(sniff_sample(bytes@), 0),
        r.1 == count_nuls(sniff_sample(bytes@), 1),
        r.0 + r.1 > 0 <==> sniff_sample(bytes@).contains(0),
{
    let n: usize = if bytes.len() <= SNIFF_SAMPLE_BYTES {
        bytes.len()
    } else {
        SNIFF_SAMPLE_BYTES
    };
    let ghost sample = sniff_sample(bytes@);
    let mut even: usize = 0;
    let mut odd: usize = 0;
    let mut i: usize = 0;
    while i < n
        invariant
            n <= bytes@.len(),
            n <= SNIFF_SAMPLE_BYTES,
            sample == sniff_sample(bytes@),
            sample.len() == n,
            i <= n,
            even == count_nuls(sample.take(i as int), 0),
            odd == count_nuls(sample.take(i as int), 1),
            even + odd <= i,
            even + odd > 0 <==> sample.take(i as int).contains(0),
        decreases n - i,
    {
        let ghost before = sample.take(i as int);
        let ghost after = sample.take(i + 1);
        proof {
            assert(after.drop_last() == before);
            assert(after.last() == bytes@[i as int]);
            assert(after == before.push(bytes@[i as int]));
        }
        if bytes[i] == 0 {
            if i % 2 == 0 {
                even += 1;
            } else {
                odd += 1;
            }
            assert(after[i as int] == 0);
            assert(after.contains(0));
        } else {
            proof {
                if before.contains(0) {
                    let k = choose|k: int| 0 <= k < before.len() && before[k] == 0;
                    assert(after[k] == 0);
                }
                if after.contains(0) {
                    let k = choose|k: int| 0 <= k < after.len() && after[k] == 0;
                    assert(before[k] == 0);
                }
            }
        }
        i += 1;
    }
    assert(sample.take(n as int) == sample);
    (even, odd)
}

/// The encoding of some bytes, and whether a byte-order mark tells it.
pub fn sniff_encoding(bytes: &[u8]) -> (r: (&'static str, bool))
    ensures
        (r.0@, r.1) == sniffed(bytes@),
{
    let n: usize = bytes.len();
    if n >= 3 && bytes[0] == 0xEF && bytes[1] == 0xBB && bytes[2] == 0xBF {
        assert(bytes@.take(3) == utf8_mark());
        return ("UTF-8", true);
    }
    assert(!begins_with(bytes@, utf8_mark())) by {
        if begins_with(bytes@, utf8_mark()) {
            assert(forall|i: int| 0 <= i < 3 ==> bytes@[i] == #[trigger] bytes@.take(3)[i]);
        }
    }
    if n >= 2 && bytes[0] == 0xFF && bytes[1] == 0xFE {
        assert(bytes@.take(2) == utf16_mark(false));
        return ("UTF-16LE", true);
    }
    assert(!begins_with(bytes@, utf16_mark(false))) by {
        if begins_with(bytes@, utf16_mark(false)) {
            assert(forall|i: int| 0 <= i < 2 ==> bytes@[i] == #[trigger] bytes@.take(2)[i]);
        }
    }
    if n >= 2 && bytes[0] == 0xFE && bytes[1] == 0xFF {
        assert(bytes@.take(2) == utf16_mark(true));
        return ("UTF-16BE", true);
    }
    assert(!begins_with(bytes@, utf16_mark(true))) by {
        if begins_with(bytes@, utf16_mark(true)) {
            assert(forall|i: int| 0 <= i < 2 ==> bytes@[i] == #[trigger] bytes@.take(2)[i]);
        }
    }
    let (even, odd) = nuls_by_parity(bytes);
    if even == 0 && odd == 0 {
        if utf8::is_utf8(bytes) {
            ("UTF-8", false)
        } else {
            ("Latin-1", false)
        }
    } else if odd >= even {
        ("UTF-16LE", false)
    } else {
        ("UTF-16BE", false)
    }
}

// ── line endings ────────────────────────────────────────────────────────────────

/// A line feed that no carriage return precedes.
pub open spec fn bare_feed_at(s: Seq<char>, i: int) -> bool {
    0 <= i < s.len() && s[i] == '\n' && (i == 0 || s[i - 1] != '\r')
}

/// A line feed with a carriage return before it.
pub open spec fn crlf_at(s: Seq<char>, i: int) -> bool {
    0 < i < s.len() && s[i] == '\n' && s[i - 1] == '\r'
}

/// Which line endings a text uses.
pub open spec fn line_ending(s: Seq<char>) -> Seq<char> {
    let crlf = exists|i: int| crlf_at(s, i);
    let lf = exists|i: int| bare_feed_at(s, i);
    if crlf && lf {
        "Mixed"@
    } else if crlf {
        "CRLF"@
    } else if lf {
        "LF"@
    } else {
        "none"@
    }
}

/// Which line endings a text uses.
pub fn line_ending_of(s: &str) -> (r: &'static str)
    ensures
        r@ == line_ending(s@),
{
    let mut crlf: bool = false;
    let mut lf: bool = false;
    let mut last: char = ' ';
    for c in it: s.chars()
        invariant
            it.seq() == s@,
            it.index() == 0 ==> last == ' ',
            it.index() > 0 ==> last == s@[it.index() - 1],
            crlf <==> exists|i: int| i < it.index() && crlf_at(s@, i),
            lf <==> exists|i: int| i < it.index() && bare_feed_at(s@, i),
    {
        let ghost k = it.index() as int;
        if c == '\n' {
            if last == '\r' {
                crlf = true;
                assert(crlf_at(s@, k));
            } else {
                lf = true;
                assert(bare_feed_at(s@, k));
            }
        }
        last = c;
    }
    if crlf && lf {
        "Mixed"
    } else if crlf {
        "CRLF"
    } else if lf {
        "LF"
    } else {
        "none"
    }
}

// ── decoding ────────────────────────────────────────────────────────────────────

/// The bytes behind the first `n`, if there are any.
pub open spec fn behind(bytes: Seq<u8>, n: int) -> Seq<u8> {
    if n <= bytes.len() {
        bytes.skip(n)
    } else {
        Seq::empty()
    }
}

/// The bytes behind the byte-order mark of an encoding, where there is one.
pub open spec fn body_of(bytes: Seq<u8>, encoding: Seq<char>, bom: bool) -> Seq<u8> {
    if !bom {
        bytes
    } else if encoding == "UTF-8"@ {
        behind(bytes, 3)
    } else if encoding == "UTF-16LE"@ || encoding == "UTF-16BE"@ {
        behind(bytes, 2)
    } else {
        bytes
    }
}

/// The bytes behind the byte-order mark of `encoding`, where `bom` says there is one.
pub fn strip_bom<'a>(bytes: &'a [u8], encoding: &str, bom: bool) -> (r: &'a [u8])
    ensures
        r@ == body_of(bytes@, encoding@, bom),
{
    if !bom {
        return bytes;
    }
    let mark: usize = if text::same_text(encoding, "UTF-8") {
        3
    } else if text::same_text(encoding, "UTF-16LE") || text::same_text(encoding, "UTF-16BE") {
        2
    } else {
        0
    };
    let from: usize = if mark <= bytes.len() {
        mark
    } else {
        bytes.len()
    };
    let r = slice_subrange(bytes, from, bytes.len());
    proof {
        if mark <= bytes@.len() {
            assert(r@ == bytes@.skip(mark as int));
            assert(mark == 0 ==> r@ == bytes@);
        } else {
            assert(r@ == Seq::<u8>::empty());
        }
    }
    r
}

/// Each byte as the character of that number.
pub open spec fn latin1_text(bytes: Seq<u8>) -> Seq<char> {
    bytes.map_values(|b: u8| b as char)
}

/// The text of some bytes in an encoding. An encoding of no known name is read as UTF-8.
pub open spec fn decoded(bytes: Seq<u8>, encoding: Seq<char>, bom: bool) -> Seq<char> {
    let body = body_of(bytes, encoding, bom);
    if encoding == "UTF-16LE"@ {
        utf16::units_text(utf16::bytes_units(body, false))
    } else if encoding == "UTF-16BE"@ {
        utf16::units_text(utf16::bytes_units(body, true))
    } else if encoding == "Latin-1"@ {
        latin1_text(body)
    } else {
        utf8::lossy(body)
    }
}

/// Each byte as the character of that number.
fn decode_latin1(bytes: &[u8]) -> (s: String)
    ensures
        s@ == latin1_text(bytes@),
{
    let mut s = String::new();
    let mut i: usize = 0;
    while i < bytes.len()
        invariant
            i <= bytes@.len(),
            s@ == latin1_text(bytes@).take(i as int),
        decreases bytes@.len() - i,
    {
        s.push(bytes[i] as char);
        i += 1;
        assert(latin1_text(bytes@).take(i as int) == latin1_text(bytes@).take(i - 1).push(
            bytes@[i - 1] as char,
        ));
    }
    assert(latin1_text(bytes@).take(bytes@.len() as int) == latin1_text(bytes@));
    s
}

/// The text of some bytes in `encoding`. What is not valid there is replaced, so this
/// never fails.
pub fn decode(bytes: &[u8], encoding: &str, bom: bool) -> (s: String)
    ensures
        s@ == decoded(bytes@, encoding@, bom),
{
    let body = strip_bom(bytes, encoding, bom);
    if text::same_text(encoding, "UTF-16LE") {
        utf16::decode_units(&utf16::read_units(body, false))
    } else if text::same_text(encoding, "UTF-16BE") {
        utf16::decode_units(&utf16::read_units(body, true))
    } else if text::same_text(encoding, "Latin-1") {
        decode_latin1(body)
    } else {
        utf8::lossy_text(body)
    }
}

// ── encoding ────────────────────────────────────────────────────────────────────

/// The byte of a character in Latin-1; a question mark for one that it lacks.
pub open spec fn latin1_byte(c: char) -> u8 {
    if c as u32 <= 0xFF {
        c as u8
    } else {
        0x3F
    }
}

/// The bytes of a text in Latin-1.
pub open spec fn latin1_bytes(s: Seq<char>) -> Seq<u8> {
    s.map_values(|c: char| latin1_byte(c))
}

/// The bytes of a text in UTF-16, behind a byte-order mark.
pub open spec fn utf16_bytes(s: Seq<char>, big: bool) -> Seq<u8> {
    utf16_mark(big) + utf16::units_bytes(utf16::text_units(s), big)
}

/// The bytes of a text in a target encoding, or nothing where there is no such target.
pub open spec fn encoded(s: Seq<char>, target: Seq<char>) -> Option<Seq<u8>> {
    if target == "utf-8"@ {
        Some(encode_utf8(s))
    } else if target == "utf-16le"@ {
        Some(utf16_bytes(s, false))
    } else if target == "utf-16be"@ {
        Some(utf16_bytes(s, true))
    } else if target == "latin1"@ {
        Some(latin1_bytes(s))
    } else {
        None
    }
}

/// How an unknown target is refused.
pub open spec fn unknown_target(target: Seq<char>) -> Seq<char> {
    "unknown target encoding: "@ + target
}

/// The UTF-8 bytes of a text.
fn encode_as_utf8(s: &str) -> (out: Vec<u8>)
    ensures
        out@ == encode_utf8(s@),
{
    let bytes: &[u8] = s.as_bytes();
    let mut out: Vec<u8> = Vec::new();
    let mut i: usize = 0;
    while i < bytes.len()
        invariant
            i <= bytes@.len(),
            out@ == bytes@.take(i as int),
        decreases bytes@.len() - i,
    {
        out.push(bytes[i]);
        i += 1;
        assert(bytes@.take(i as int) == bytes@.take(i - 1).push(bytes@[i - 1]));
    }
    assert(bytes@.take(bytes@.len() as int) == bytes@);
    out
}

/// The bytes of a text in UTF-16, behind a byte-order mark.
fn encode_as_utf16(s: &str, big: bool) -> (out: Vec<u8>)
    ensures
        out@ == utf16_bytes(s@, big),
{
    let mut out: Vec<u8> = Vec::new();
    if big {
        out.push(0xFE);
        out.push(0xFF);
    } else {
        out.push(0xFF);
        out.push(0xFE);
    }
    assert(out@ == utf16_mark(big));
    utf16::write_units(&utf16::encode_units(s), big, &mut out);
    out
}

/// The bytes of a text in Latin-1.
fn encode_as_latin1(s: &str) -> (out: Vec<u8>)
    ensures
        out@ == latin1_bytes(s@),
{
    let mut out: Vec<u8> = Vec::new();
    for c in it: s.chars()
        invariant
            it.seq() == s@,
            out@ == latin1_bytes(s@.take(it.index() as int)),
    {
        let b: u8 = if c as u32 <= 0xFF {
            c as u8
        } else {
            0x3F
        };
        out.push(b);
        assert(latin1_bytes(s@.take(it.index() + 1)) == latin1_bytes(
            s@.take(it.index() as int),
        ).push(b));
    }
    assert(s@.take(s@.len() as int) == s@);
    out
}

/// The bytes of a text in a target, or how the target is refused.
pub open spec fn is_encoded(text: Seq<char>, target: Seq<char>, r: Result<Vec<u8>, String>) -> bool {
    match r {
        Ok(out) => encoded(text, target) == Some(out@),
        Err(e) => encoded(text, target) is None && e@ == unknown_target(target),
    }
}

/// The bytes of `text` in `target`: "utf-8" without a byte-order mark, "utf-16le" and
/// "utf-16be" with one, or "latin1" with a question mark for what it lacks.
pub fn encode(text: &str, target: &str) -> (r: Result<Vec<u8>, String>)
    ensures
        is_encoded(text@, target@, r),
{
    if text::same_text(target, "utf-8") {
        Ok(encode_as_utf8(text))
    } else if text::same_text(target, "utf-16le") {
        Ok(encode_as_utf16(text, false))
    } else if text::same_text(target, "utf-16be") {
        Ok(encode_as_utf16(text, true))
    } else if text::same_text(target, "latin1") {
        Ok(encode_as_latin1(text))
    } else {
        let mut e = "unknown target encoding: ".to_owned();
        e.append(target);
        Err(e)
    }
}

// ── files ───────────────────────────────────────────────────────────────────────

/// Why a file is not looked at, given its size and its bytes or what went wrong in
/// getting them.
pub open spec fn load_refusal(
    size: Result<u64, String>,
    bytes: Result<Vec<u8>, String>,
) -> Option<Seq<char>> {
    match size {
        Err(e) => Some(e@),
        Ok(n) => if n > MAX_ENCODING_BYTES {
            Some("file too large"@)
        } else {
            match bytes {
                Err(e) => Some(e@),
                Ok(_) => None,
            }
        },
    }
}

/// The bytes of a file that may be looked at.
fn load(size: Result<u64, String>, bytes: Result<Vec<u8>, String>) -> (r: Result<
    (u64, Vec<u8>),
    String,
>)
    ensures
        match r {
            Ok((n, b)) => load_refusal(size, bytes) is None && size == Ok::<u64, String>(n)
                && bytes == Ok::<Vec<u8>, String>(b),
            Err(e) => load_refusal(size, bytes) == Some(e@),
        },
{
    match size {
        Err(e) => Err(e),
        Ok(n) => {
            if n > MAX_ENCODING_BYTES {
                return Err("file too large".to_owned());
            }
            match bytes {
                Err(e) => Err(e),
                Ok(b) => Ok((n, b)),
            }
        },
    }
}

/// The text of some bytes in the encoding they appear to be in.
pub open spec fn sniffed_text(bytes: Seq<u8>) -> Seq<char> {
    decoded(bytes, sniffed(bytes).0, sniffed(bytes).1)
}

/// What `detect_encoding` reports of a file.
pub open spec fn is_info_of(info: EncodingInfo, size: u64, bytes: Seq<u8>) -> bool {
    let (encoding, bom) = sniffed(bytes);
    &&& info.encoding@ == encoding
    &&& info.bom == bom
    &&& info.line_ending@ == line_ending(sniffed_text(bytes))
    &&& info.valid_utf8 == valid_utf8(body_of(bytes, encoding, bom))
    &&& info.bytes == size
}

/// What is reported of a file, or why nothing is.
pub open spec fn is_detected(
    size: Result<u64, String>,
    bytes: Result<Vec<u8>, String>,
    r: Result<EncodingInfo, String>,
) -> bool {
    match r {
        Ok(info) => load_refusal(size, bytes) is None && is_info_of(
            info,
            size->Ok_0,
            bytes->Ok_0@,
        ),
        Err(e) => load_refusal(size, bytes) == Some(e@),
    }
}

/// The encoding, the byte-order mark and the line endings of a file, from its size and
/// its bytes or from what went wrong in getting them.
pub fn detect_encoding(size: Result<u64, String>, bytes: Result<Vec<u8>, String>) -> (r: Result<
    EncodingInfo,
    String,
>)
    ensures
        is_detected(size, bytes, r),
{
    let (size, bytes) = match load(size, bytes) {
        Ok(loaded) => loaded,
        Err(e) => {
            return Err(e);
        },
    };
    let (encoding, bom) = sniff_encoding(bytes.as_slice());
    let text = decode(bytes.as_slice(), encoding, bom);
    let body = strip_bom(bytes.as_slice(), encoding, bom);
    Ok(
        EncodingInfo {
            encoding: encoding.to_owned(),
            bom,
            line_ending: line_ending_of(text.as_str()).to_owned(),
            valid_utf8: utf8::is_utf8(body),
            bytes: size,
        },
    )
}

/// The target that a request names: without white space around it, in lower case.
pub open spec fn target_of(to: Seq<char>) -> Seq<char> {
    text::lower(text::trim(to))
}

/// Why a conversion is refused.
pub open spec fn convert_refusal(
    size: Result<u64, String>,
    bytes: Result<Vec<u8>, String>,
    to: Seq<char>,
) -> Option<Seq<char>> {
    match load_refusal(size, bytes) {
        Some(e) => Some(e),
        None => if encoded(sniffed_text(bytes->Ok_0@), target_of(to)) is None {
            Some(unknown_target(target_of(to)))
        } else {
            None
        },
    }
}

/// The bytes of a file once it is converted.
pub open spec fn converted(bytes: Seq<u8>, to: Seq<char>) -> Option<Seq<u8>> {
    encoded(sniffed_text(bytes), target_of(to))
}

/// What `convert_encoding` reports of a file, and the bytes it wants written.
pub open spec fn is_conversion(
    r: ConvertEncResult,
    write: Option<Vec<u8>>,
    bytes: Seq<u8>,
    to: Seq<char>,
    apply: bool,
) -> bool {
    let out = converted(bytes, to)->0;
    &&& r.from@ == sniffed(bytes).0
    &&& r.to@ == target_of(to)
    &&& r.bytes_before == bytes.len()
    &&& r.bytes_after == out.len()
    &&& r.differs == (out != bytes)
    &&& r.applied == (apply && out != bytes)
    &&& match write {
        Some(w) => r.applied && w@ == out,
        None => !r.applied,
    }
}

/// Whether two byte vectors hold the same bytes.
fn same_bytes(a: &Vec<u8>, b: &Vec<u8>) -> (r: bool)
    ensures
        r == (a@ == b@),
{
    if a.len() != b.len() {
        return false;
    }
    let mut i: usize = 0;
    while i < a.len()
        invariant
            a@.len() == b@.len(),
            i <= a@.len(),
            forall|j: int| 0 <= j < i ==> a@[j] == b@[j],
        decreases a@.len() - i,
    {
        if a[i] != b[i] {
            return false;
        }
        i += 1;
    }
    assert(a@ == b@);
    true
}

/// What a conversion of a file gives, or why there is none.
pub open spec fn is_converted(
    size: Result<u64, String>,
    bytes: Result<Vec<u8>, String>,
    to: Seq<char>,
    apply: Option<bool>,
    r: Result<(ConvertEncResult, Option<Vec<u8>>), String>,
) -> bool {
    match r {
        Ok((result, write)) => convert_refusal(size, bytes, to) is None && is_conversion(
            result,
            write,
            bytes->Ok_0@,
            to,
            apply == Some(true),
        ),
        Err(e) => convert_refusal(size, bytes, to) == Some(e@),
    }
}

/// Convert a file to another encoding, from its size and its bytes or from what went
/// wrong in getting them. The bytes beside the report are to be written; there are none
/// where only a look was asked for or nothing changes.
pub fn convert_encoding(
    size: Result<u64, String>,
    bytes: Result<Vec<u8>, String>,
    to: &str,
    apply: Option<bool>,
) -> (r: Result<(ConvertEncResult, Option<Vec<u8>>), String>)
    ensures
        is_converted(size, bytes, to@, apply, r),
{
    let target = text::trimmed(to).as_str().to_lowercase();
    let (_, bytes) = match load(size, bytes) {
        Ok(loaded) => loaded,
        Err(e) => {
            return Err(e);
        },
    };
    let (from, bom) = sniff_encoding(bytes.as_slice());
    let text = decode(bytes.as_slice(), from, bom);
    let out = match encode(text.as_str(), target.as_str()) {
        Ok(out) => out,
        Err(e) => {
            return Err(e);
        },
    };
    let differs: bool = !same_bytes(&out, &bytes);
    let applied: bool = apply.unwrap_or(false) && differs;
    let result = ConvertEncResult {
        from: from.to_owned(),
        to: target,
        bytes_before: bytes.len(),
        bytes_after: out.len(),
        differs,
        applied,
    };
    Ok(
        (
            result,
            if applied {
                Some(out)
            } else {
                None
            },
        ),
    )
}

} // verus!
