//! The scope a study session draws cards from: everything, one text, or one
//! folder.

use vstd::prelude::*;

verus! {

/// The digit character for a value below ten.
pub open spec fn digit_char(d: int) -> char {
    if d == 0 {
        '0'
    } else if d == 1 {
        '1'
    } else if d == 2 {
        '2'
    } else if d == 3 {
        '3'
    } else if d == 4 {
        '4'
    } else if d == 5 {
        '5'
    } else if d == 6 {
        '6'
    } else if d == 7 {
        '7'
    } else if d == 8 {
        '8'
    } else {
        '9'
    }
}

/// The decimal digits of a non-negative value.
pub open spec fn dec_digits(n: int) -> Seq<char>
    decreases n when n >= 0
{
    if n < 10 {
        seq![digit_char(n)]
    } else {
        dec_digits(n / 10) + seq![digit_char(n % 10)]
    }
}

/// The decimal rendering of a value, with a leading minus sign when
/// negative.
pub open spec fn decimal_string(v: int) -> Seq<char> {
    if v < 0 {
        seq!['-'] + dec_digits(-v)
    } else {
        dec_digits(v)
    }
}

/// The value, written in decimal.
pub fn to_decimal_string(v: i64) -> (s: String)
    ensures
        s@ == decimal_string(v as int),
{
    let negative = v < 0;
    let mut mag: u64 = if v < 0 {
        ((-(v as i128)) as u64)
    } else {
        (v as u64)
    };
    let ghost mag0 = mag as int;
    let mut acc: Vec<char> = Vec::new();
    while mag >= 10
        invariant
            0 <= mag0,
            dec_digits(mag0) =~= dec_digits(mag as int) + acc@.reverse(),
        decreases mag,
    {
        let d = mag % 10;
        let ghost old_acc = acc@;
        acc.push(digit_of(d));
        proof {
            assert(acc@.reverse() =~= seq![digit_char(d as int)] + old_acc.reverse());
            assert(dec_digits(mag as int) == dec_digits(mag as int / 10) + seq![
                digit_char(mag as int % 10),
            ]);
        }
        mag = mag / 10;
    }
    let ghost old_acc = acc@;
    acc.push(digit_of(mag));
    proof {
        assert(acc@.reverse() =~= seq![digit_char(mag as int)] + old_acc.reverse());
        assert(dec_digits(mag as int) == seq![digit_char(mag as int)]);
        assert(acc@.reverse() =~= dec_digits(mag0));
    }
    let mut out: Vec<char> = Vec::new();
    if negative {
        out.push('-');
    }
    let n = acc.len();
    let mut k: usize = 0;
    while k < n
        invariant
            0 <= k <= n,
            n == acc@.len(),
            out@.len() == k + (if negative {
                1int
            } else {
                0int
            }),
            negative ==> out@ == seq!['-'] + acc@.reverse().take(k as int),
            !negative ==> out@ == acc@.reverse().take(k as int),
        decreases n - k,
    {
        out.push(acc[n - 1 - k]);
        proof {
            assert(acc@.reverse()[k as int] == acc@[n - 1 - k]);
            assert(acc@.reverse().take(k + 1) =~= acc@.reverse().take(k as int).push(
                acc@.reverse()[k as int],
            ));
            if negative {
                assert(out@ =~= seq!['-'] + acc@.reverse().take(k + 1));
            } else {
                assert(out@ =~= acc@.reverse().take(k + 1));
            }
        }
        k = k + 1;
    }
    proof {
        assert(acc@.reverse().take(acc@.len() as int) =~= acc@.reverse());
    }
    crate::text_units::chars_to_string(&out)
}

fn digit_of(d: u64) -> (c: char)
    requires
        d < 10,
    ensures
        c == digit_char(d as int),
{
    if d == 0 {
        '0'
    } else if d == 1 {
        '1'
    } else if d == 2 {
        '2'
    } else if d == 3 {
        '3'
    } else if d == 4 {
        '4'
    } else if d == 5 {
        '5'
    } else if d == 6 {
        '6'
    } else if d == 7 {
        '7'
    } else if d == 8 {
        '8'
    } else {
        '9'
    }
}

/// What a study session covers.
#[derive(Debug, Clone)]
pub enum StudyFilter {
    /// Every text.
    Global,
    /// One text.
    Text { text_id: i64 },
    /// One folder.
    Folder { folder_id: String },
}

impl StudyFilter {
    /// The name of the filter's scope.
    pub fn scope_type(&self) -> (name: &'static str)
        ensures
            match *self {
                StudyFilter::Global => name@ == "global"@,
                StudyFilter::Text { .. } => name@ == "text"@,
                StudyFilter::Folder { .. } => name@ == "folder"@,
            },
    {
        match self {
            StudyFilter::Global => "global",
            StudyFilter::Text { .. } => "text",
            StudyFilter::Folder { .. } => "folder",
        }
    }

    /// The identifier of the filter's scope: the text id in decimal, the
    /// folder id as it is, nothing for the global scope.
    pub fn scope_id(&self) -> (id: Option<String>)
        ensures
            match *self {
                StudyFilter::Global => id is None,
                StudyFilter::Text { text_id } => id matches Some(s) && s@ == decimal_string(
                    text_id as int,
                ),
                StudyFilter::Folder { folder_id } => id matches Some(s) && s@ == folder_id@,
            },
    {
        match self {
            StudyFilter::Global => None,
            StudyFilter::Text { text_id } => Some(to_decimal_string(*text_id)),
            StudyFilter::Folder { folder_id } => {
                let mut copy = String::new();
                copy.append(folder_id.as_str());
                Some(copy)
            },
        }
    }
}

} // verus!
