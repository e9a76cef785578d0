//! Text statistics over a document's content: how many words and how many
//! paragraphs it holds.

use vstd::prelude::*;
use crate::cloze_parser::is_unicode_ws;
use crate::cloze_parser::unicode_ws;
use crate::paragraphs::detect_paragraphs;
use crate::paragraphs::paragraph_spans;
use crate::text_units::MAX_CONTENT_LENGTH;
use crate::text_units::lemma_utf16_len_ge_chars;
use crate::text_units::string_chars;
use crate::text_units::utf16_len;
use crate::text_units::utf16_seq;

verus! {

/// The number of whitespace-separated words of the text from `i` on;
/// `in_word` says whether position `i` continues a word already counted.
pub open spec fn word_count_from(s: Seq<char>, i: int, in_word: bool) -> int
    decreases s.len() - i when 0 <= i <= s.len()
{
    if i >= s.len() {
        0
    } else if unicode_ws(s[i]) {
        word_count_from(s, i + 1, false)
    } else if in_word {
        word_count_from(s, i + 1, true)
    } else {
        1 + word_count_from(s, i + 1, true)
    }
}

/// The number of whitespace-separated words of the text.
pub fn calculate_word_count(content: &str) -> (count: i64)
    requires
        utf16_len(content@) <= MAX_CONTENT_LENGTH,
    ensures
        count == word_count_from(content@, 0, false),
        count >= 0,
{
    proof {
        lemma_utf16_len_ge_chars(content@);
    }
    let chars = string_chars(content);
    let n = chars.len();
    let mut count: i64 = 0;
    let mut in_word: bool = false;
    let mut i: usize = 0;
    while i < n
        invariant
            0 <= i <= n,
            chars@ == content@,
            n == content@.len(),
            n <= MAX_CONTENT_LENGTH,
            0 <= count <= i,
            count + word_count_from(content@, i as int, in_word) == word_count_from(
                content@,
                0,
                false,
            ),
        decreases n - i,
    {
        if is_unicode_ws(chars[i]) {
            in_word = false;
        } else if !in_word {
            count = count + 1;
            in_word = true;
        }
        i = i + 1;
    }
    count
}

/// The number of paragraphs of the text.
pub fn calculate_paragraph_count(content: &str) -> (count: i64)
    requires
        utf16_len(content@) <= MAX_CONTENT_LENGTH,
    ensures
        count as int == paragraph_spans(utf16_seq(content@)).len(),
{
    let paragraphs = detect_paragraphs(content);
    paragraphs.len() as i64
}

} // verus!
