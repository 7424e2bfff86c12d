use vstd::prelude::*;
use vstd::string::StringSliceAdditionalSpecFns;
use vstd::utf8::{
    encode_scalar, encode_utf8, encode_utf8_decode_utf8, encode_utf8_first_scalar,
    encode_utf8_valid_utf8, is_char_boundary, length_of_first_scalar, pop_first_scalar,
};

use crate::paragraphs::paragraph_breaks;

verus! {

/// The pattern of a paragraph break: two or more newlines in a row.
pub const PARAGRAPH_BREAK: &'static str = "\\n{2,}";

/// What stands between the paragraphs of a packed chunk.
pub const JOINER: &'static str = "\n\n";

/// Whether `c` is white space in Unicode's sense; what `char::is_whitespace`
/// answers.
pub uninterp spec fn is_whitespace(c: char) -> bool;

/// The number of white space characters at the front of `s`.
pub open spec fn leading_space(s: Seq<char>) -> int
    decreases s.len(),
{
    if s.len() > 0 && is_whitespace(s.first()) {
        1 + leading_space(s.drop_first())
    } else {
        0
    }
}

/// The number of white space characters at the back of `s`.
pub open spec fn trailing_space(s: Seq<char>) -> int
    decreases s.len(),
{
    if s.len() > 0 && is_whitespace(s.last()) {
        1 + trailing_space(s.drop_last())
    } else {
        0
    }
}

/// `s` without the white space at its two ends.
pub open spec fn trimmed(s: Seq<char>) -> Seq<char> {
    if leading_space(s) >= s.len() {
        Seq::empty()
    } else {
        s.subrange(leading_space(s), s.len() - trailing_space(s))
    }
}

/// The number of bytes that `chars` take in UTF-8.
pub open spec fn utf8_len(chars: Seq<char>) -> int {
    encode_utf8(chars).len() as int
}

/// `str::trim`: the slice of `s` without the white space at its two ends,
/// where white space is what `char::is_whitespace` accepts.
#[verifier::external_body]
pub(crate) fn trim<'a>(s: &'a str) -> (t: &'a str)
    ensures
        t@ == trimmed(s@),
        t@.len() > 0 ==> !is_whitespace(t@.first()) && !is_whitespace(t@.last()),
{
    s.trim()
}

/// `Regex::new`, `Regex::find_iter`, `Match::start` and `Match::end` of the
/// regex crate, for the pattern of a paragraph break alone: the matches are
/// the runs of two or more newlines, each as long as it goes, from left to
/// right. The crate reports a match by the byte offsets of its two ends.
#[verifier::external_body]
pub(crate) fn find_breaks(pattern: &str, text: &str) -> (spans: Vec<(usize, usize)>)
    requires
        pattern@ == PARAGRAPH_BREAK@,
    ensures
        spans@.len() == paragraph_breaks(text@).len(),
        forall|k: int|
            0 <= k < spans@.len() ==> (#[trigger] spans@[k]).0 == utf8_len(
                text@.take(paragraph_breaks(text@)[k].0),
            ) && spans@[k].1 == utf8_len(text@.take(paragraph_breaks(text@)[k].1)),
{
    let breaks = regex::Regex::new(pattern).unwrap();
    breaks.find_iter(text).map(|m| (m.start(), m.end())).collect()
}

/// The bytes of two texts in a row are the bytes of the one, then of the other.
pub proof fn lemma_encode_concat(a: Seq<char>, b: Seq<char>)
    ensures
        encode_utf8(a + b) == encode_utf8(a) + encode_utf8(b),
    decreases a.len(),
{
    if a.len() == 0 {
        assert(a + b =~= b);
        assert(encode_utf8(a) + encode_utf8(b) =~= encode_utf8(b));
    } else {
        lemma_encode_concat(a.drop_first(), b);
        assert((a + b).drop_first() =~= a.drop_first() + b);
        assert(encode_utf8(a + b) =~= encode_utf8(a) + encode_utf8(b));
    }
}

/// Where one text ends and the next begins, a character begins.
pub proof fn lemma_boundary_between(a: Seq<char>, b: Seq<char>)
    ensures
        is_char_boundary(encode_utf8(a + b), utf8_len(a)),
    decreases a.len(),
{
    encode_utf8_valid_utf8(a + b);
    if a.len() > 0 {
        let all = a + b;
        let bytes = encode_utf8(all);
        encode_utf8_first_scalar(all);
        encode_utf8_first_scalar(a);
        assert(pop_first_scalar(bytes) =~= encode_utf8(all.drop_first()));
        assert(all.drop_first() =~= a.drop_first() + b);
        lemma_boundary_between(a.drop_first(), b);
        assert(utf8_len(a) == encode_scalar(a[0] as u32).len() + utf8_len(a.drop_first()));
        assert(length_of_first_scalar(bytes) == encode_scalar(a[0] as u32).len());
        assert(utf8_len(a) > 0);
    }
}

/// Splits `rest` after its first `count` characters, which take `mid` bytes.
pub(crate) fn split_after<'a>(rest: &'a str, mid: usize, Ghost(count): Ghost<int>) -> (parts: (
    &'a str,
    &'a str,
))
    requires
        0 <= count <= rest@.len(),
        mid == utf8_len(rest@.take(count)),
    ensures
        parts.0@ == rest@.take(count),
        parts.1@ == rest@.skip(count),
{
    let ghost head = rest@.take(count);
    let ghost tail = rest@.skip(count);
    proof {
        assert(rest@ =~= head + tail);
        lemma_encode_concat(head, tail);
        lemma_boundary_between(head, tail);
    }
    let parts = rest.split_at(mid);
    proof {
        let bytes = rest.spec_bytes();
        assert(bytes.subrange(0, mid as int) =~= encode_utf8(head));
        assert(bytes.subrange(mid as int, bytes.len() as int) =~= encode_utf8(tail));
        encode_utf8_decode_utf8(parts.0@);
        encode_utf8_decode_utf8(parts.1@);
        encode_utf8_decode_utf8(head);
        encode_utf8_decode_utf8(tail);
    }
    parts
}

} // verus!
