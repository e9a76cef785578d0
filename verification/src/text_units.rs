//! The document's coordinate system: UTF-16 code units. Every offset the
//! engine exchanges with its callers counts UTF-16 code units, matching the
//! host rendering layer's string indexing, so text is converted once into a
//! unit vector and all scanning works on it.

use vstd::prelude::*;
use vstd::string::StrSliceExecFns;
use vstd::utf8::char_is_scalar;

verus! {

/// The largest document length, in UTF-16 code units, the engine accepts;
/// keeps every offset computation inside `i64`.
pub const MAX_CONTENT_LENGTH: i64 = 0x2000_0000_0000_0000;

/// How many UTF-16 code units encode the character: one for the basic
/// multilingual plane, two (a surrogate pair) above it.
pub open spec fn char_utf16_len(c: char) -> int {
    if (c as u32) < 0x10000 {
        1
    } else {
        2
    }
}

/// The UTF-16 encoding of one character.
pub open spec fn char_utf16(c: char) -> Seq<u16> {
    if (c as u32) < 0x10000 {
        seq![c as u16]
    } else {
        let v = (c as u32) - 0x10000;
        seq![(0xD800 + v / 0x400) as u16, (0xDC00 + v % 0x400) as u16]
    }
}

/// The UTF-16 encoding of a character sequence.
pub open spec fn utf16_seq(s: Seq<char>) -> Seq<u16>
    decreases s.len(),
{
    if s.len() == 0 {
        Seq::empty()
    } else {
        utf16_seq(s.drop_last()) + char_utf16(s.last())
    }
}

/// The length of a character sequence in UTF-16 code units: what the host
/// rendering layer reports as the string's length.
pub open spec fn utf16_len(s: Seq<char>) -> int {
    utf16_seq(s).len() as int
}

/// A text never has more characters than UTF-16 code units.
pub proof fn lemma_utf16_len_ge_chars(s: Seq<char>)
    ensures
        utf16_len(s) >= s.len(),
    decreases s.len(),
{
    if s.len() > 0 {
        lemma_utf16_len_ge_chars(s.drop_last());
    }
}

/// Converts text to its UTF-16 code units, the engine's coordinate space.
pub fn utf16_units(content: &str) -> (units: Vec<u16>)
    ensures
        units@ == utf16_seq(content@),
{
    let n = content.unicode_len();
    let mut units: Vec<u16> = Vec::new();
    let mut i: usize = 0;
    while i < n
        invariant
            i <= n,
            n == content@.len(),
            units@ == utf16_seq(content@.take(i as int)),
        decreases n - i,
    {
        let c = content.get_char(i);
        proof {
            char_is_scalar(c);
            let t = content@.take(i + 1);
            assert(t.drop_last() =~= content@.take(i as int));
            assert(t.last() == content@[i as int]);
        }
        let v = c as u32;
        if v < 0x10000 {
            units.push(v as u16);
            proof {
                assert(units@ =~= utf16_seq(content@.take(i as int)) + char_utf16(c));
            }
        } else {
            let r = v - 0x10000;
            units.push((0xD800 + r / 0x400) as u16);
            units.push((0xDC00 + r % 0x400) as u16);
            proof {
                assert(units@ =~= utf16_seq(content@.take(i as int)) + char_utf16(c));
            }
        }
        i = i + 1;
    }
    proof {
        assert(content@.take(content@.len() as int) =~= content@);
    }
    units
}

/// Relies on `String::from_iter` over `char` (through `Iterator::collect`):
/// the resulting string holds exactly the characters of the vector, in
/// order.
#[verifier::external_body]
pub(crate) fn chars_to_string(chars: &Vec<char>) -> (s: String)
    ensures
        s@ == chars@,
{
    chars.iter().collect()
}

/// The characters of the text, one by one.
pub fn string_chars(text: &str) -> (chars: Vec<char>)
    ensures
        chars@ == text@,
{
    let n = text.unicode_len();
    let mut chars: Vec<char> = Vec::new();
    let mut i: usize = 0;
    while i < n
        invariant
            i <= n,
            n == text@.len(),
            chars@ == text@.take(i as int),
        decreases n - i,
    {
        chars.push(text.get_char(i));
        proof {
            assert(text@.take(i + 1) =~= text@.take(i as int).push(text@[i as int]));
        }
        i = i + 1;
    }
    proof {
        assert(text@.take(text@.len() as int) =~= text@);
    }
    chars
}

/// The length of the text in UTF-16 code units.
pub fn utf16_length(content: &str) -> (n: i64)
    requires
        utf16_len(content@) <= i64::MAX,
    ensures
        n as int == utf16_len(content@),
{
    let units = utf16_units(content);
    units.len() as i64
}

} // verus!
