//! Safe file names for exported texts: characters the host file systems
//! refuse become underscores, over-long names are cut, and an empty result
//! falls back to a placeholder.

use vstd::prelude::*;
use vstd::string::StringExecFns;
use crate::text_units::chars_to_string;
use crate::text_units::string_chars;

verus! {

/// The byte budget a sanitised file name may use.
pub const MAX_FILENAME_BYTES: usize = 200;

/// A character no exported file name may hold.
pub open spec fn invalid_filename_char(c: char) -> bool {
    c == '/' || c == '\\' || c == ':' || c == '*' || c == '?' || c == '"' || c == '<' || c == '>'
        || c == '|'
}

/// The character as it appears in the file name: invalid ones become
/// underscores.
pub open spec fn replace_invalid(c: char) -> char {
    if invalid_filename_char(c) {
        '_'
    } else {
        c
    }
}

/// How many bytes the character takes in UTF-8.
pub open spec fn char_utf8_len(c: char) -> int {
    if (c as u32) < 0x80 {
        1
    } else if (c as u32) < 0x800 {
        2
    } else if (c as u32) < 0x10000 {
        3
    } else {
        4
    }
}

/// The longest prefix of `s` whose UTF-8 form fits in `budget` bytes: the
/// cut never splits a character.
pub open spec fn take_within_budget(s: Seq<char>, budget: int) -> Seq<char>
    decreases s.len(),
{
    if s.len() == 0 {
        Seq::empty()
    } else if char_utf8_len(s[0]) <= budget {
        seq![s[0]] + take_within_budget(s.drop_first(), budget - char_utf8_len(s[0]))
    } else {
        Seq::empty()
    }
}

/// What `sanitize_filename` returns: invalid characters replaced, the name
/// cut to the byte budget at a character boundary, and `untitled` when
/// nothing remains.
pub open spec fn sanitized_filename(s: Seq<char>) -> Seq<char> {
    let cut = take_within_budget(
        s.map_values(|c: char| replace_invalid(c)),
        MAX_FILENAME_BYTES as int,
    );
    if cut.len() == 0 {
        "untitled"@
    } else {
        cut
    }
}

fn replace_invalid_exec(c: char) -> (r: char)
    ensures
        r == replace_invalid(c),
{
    if c == '/' || c == '\\' || c == ':' || c == '*' || c == '?' || c == '"' || c == '<' || c
        == '>' || c == '|' {
        '_'
    } else {
        c
    }
}

/// A file-system-safe name for an exported text: host-reserved characters
/// become underscores, the name is cut to the byte budget on a character
/// boundary (never mid-character), and an empty name becomes `untitled`.
pub fn sanitize_filename(name: &str) -> (r: String)
    ensures
        r@ == sanitized_filename(name@),
{
    let chars = string_chars(name);
    let ghost ms = name@.map_values(|c: char| replace_invalid(c));
    let n = chars.len();
    let mut out: Vec<char> = Vec::new();
    let mut budget: usize = MAX_FILENAME_BYTES;
    let mut full: bool = false;
    let mut i: usize = 0;
    proof {
        assert(ms.skip(0) =~= ms);
    }
    while i < n && !full
        invariant
            0 <= i <= n,
            chars@ == name@,
            n == name@.len(),
            ms == name@.map_values(|c: char| replace_invalid(c)),
            budget <= MAX_FILENAME_BYTES,
            !full ==> out@ + take_within_budget(ms.skip(i as int), budget as int)
                == take_within_budget(ms, MAX_FILENAME_BYTES as int),
            full ==> out@ == take_within_budget(ms, MAX_FILENAME_BYTES as int),
        decreases n - i,
    {
        let mapped = replace_invalid_exec(chars[i]);
        let width: usize = if (mapped as u32) < 0x80 {
            1
        } else if (mapped as u32) < 0x800 {
            2
        } else if (mapped as u32) < 0x10000 {
            3
        } else {
            4
        };
        proof {
            assert(ms.skip(i as int)[0] == ms[i as int]);
            assert(ms.skip(i as int).drop_first() =~= ms.skip(i + 1));
            assert(width as int == char_utf8_len(ms[i as int]));
        }
        if width <= budget {
            let ghost old_out = out@;
            out.push(mapped);
            proof {
                assert(out@ =~= old_out + seq![ms[i as int]]);
                assert(take_within_budget(ms.skip(i as int), budget as int) == seq![
                    ms[i as int],
                ] + take_within_budget(ms.skip(i + 1), budget as int - width as int));
            }
            budget = budget - width;
        } else {
            proof {
                assert(take_within_budget(ms.skip(i as int), budget as int)
                    =~= Seq::<char>::empty());
            }
            full = true;
        }
        i = i + 1;
    }
    proof {
        if !full {
            assert(ms.skip(n as int) =~= Seq::<char>::empty());
            assert(take_within_budget(ms.skip(n as int), budget as int) =~= Seq::<char>::empty());
        }
        assert(out@ =~= take_within_budget(ms, MAX_FILENAME_BYTES as int));
    }
    if out.len() == 0 {
        String::from_str("untitled")
    } else {
        chars_to_string(&out)
    }
}

} // verus!
