//! Regular expressions, as the `regex` crate compiles and matches them.

use crate::text;
use regex::Regex;
use vstd::prelude::*;
use vstd::utf8::*;

verus! {

/// A compiled regular expression.
#[verifier::external_type_specification]
#[verifier::external_body]
pub struct ExRegex(regex::Regex);

/// The pattern that `Regex::new` made a regular expression from. Nothing is said of
/// expressions made in another way, with other settings.
pub uninterp spec fn regex_pattern(re: regex::Regex) -> Seq<char>;

/// The message with which `Regex::new` refuses a pattern, or `None` where it compiles
/// it.
pub uninterp spec fn regex_error(pattern: Seq<char>) -> Option<Seq<char>>;

/// The byte offsets of the first match of a pattern in a text, as `Regex::find` gives
/// them.
pub uninterp spec fn regex_match(pattern: Seq<char>, hay: Seq<char>) -> Option<(int, int)>;

/// The characters that have a meaning in a pattern.
pub open spec fn is_meta(c: char) -> bool {
    ||| c == '\\'
    ||| c == '.'
    ||| c == '+'
    ||| c == '*'
    ||| c == '?'
    ||| c == '('
    ||| c == ')'
    ||| c == '|'
    ||| c == '['
    ||| c == ']'
    ||| c == '{'
    ||| c == '}'
    ||| c == '^'
    ||| c == '$'
    ||| c == '#'
    ||| c == '&'
    ||| c == '-'
    ||| c == '~'
}

/// A text as a pattern that matches it: a backslash before each character that has a
/// meaning in a pattern.
pub open spec fn quoted(s: Seq<char>) -> Seq<char>
    decreases s.len(),
{
    if s.len() == 0 {
        Seq::empty()
    } else if is_meta(s.last()) {
        quoted(s.drop_last()).push('\\').push(s.last())
    } else {
        quoted(s.drop_last()).push(s.last())
    }
}

/// The byte offsets of the first occurrence of `needle` in `hay`.
pub open spec fn literal_match(needle: Seq<char>, hay: Seq<char>) -> Option<(int, int)> {
    match text::find(hay, needle) {
        Some(i) => Some(
            (
                encode_utf8(hay.take(i)).len() as int,
                encode_utf8(hay.take(i + needle.len())).len() as int,
            ),
        ),
        None => None,
    }
}

/// The start and the end of a match are offsets between characters of the text, in
/// order.
pub open spec fn is_span(hay: Seq<char>, start: int, end: int) -> bool {
    &&& start <= end
    &&& is_char_boundary(encode_utf8(hay), start)
    &&& is_char_boundary(encode_utf8(hay), end)
}

/// `Regex::new` compiles a pattern, or says why it cannot. Which of the two comes, and
/// what is said, depends on the pattern alone in one build of the library: the limit on
/// the size of a compiled pattern counts bytes of the target's memory.
#[verifier::external_body]
pub(crate) fn compile(pattern: &str) -> (r: Result<Regex, String>)
    ensures
        match r {
            Ok(re) => regex_error(pattern@) is None && regex_pattern(re) == pattern@,
            Err(e) => regex_error(pattern@) == Some(e@),
        },
{
    Regex::new(pattern).map_err(|e| e.to_string())
}

/// `Regex::find` gives the byte offsets of the first match; they depend on the pattern
/// and the text alone, stand in order, and fall between characters.
#[verifier::external_body]
pub(crate) fn find_match(re: &Regex, hay: &str) -> (r: Option<(usize, usize)>)
    ensures
        match r {
            Some((start, end)) => {
                &&& regex_match(regex_pattern(*re), hay@) == Some((start as int, end as int))
                &&& is_span(hay@, start as int, end as int)
            },
            None => regex_match(regex_pattern(*re), hay@) is None,
        },
{
    re.find(hay).map(|m| (m.start(), m.end()))
}

/// `regex::escape` puts a backslash before each character that has a meaning in a
/// pattern. The pattern it gives, where it can be compiled, matches the text it was
/// given and nothing else.
pub assume_specification[ regex::escape ](literal: &str) -> (r: String)
    ensures
        r@ == quoted(literal@),
        regex_error(r@) is None ==> forall|hay: Seq<char>| #[trigger]
            regex_match(r@, hay) == literal_match(literal@, hay),
;

} // verus!
