//! Text helpers: whitespace trimming, text equality, and the "summary falls back
//! to the name" rule shared by plans and tasks.

use vstd::prelude::*;

verus! {

/// Whether a character has the Unicode `White_Space` property (what
/// `char::is_whitespace` answers and what `str::trim` removes): the 25 code
/// points U+0009..U+000D, U+0020, U+0085, U+00A0, U+1680, U+2000..U+200A,
/// U+2028, U+2029, U+202F, U+205F and U+3000.
pub open spec fn is_white_space(c: char) -> bool {
    let n = c as u32;
    ||| 0x09 <= n <= 0x0D
    ||| n == 0x20
    ||| n == 0x85
    ||| n == 0xA0
    ||| n == 0x1680
    ||| 0x2000 <= n <= 0x200A
    ||| n == 0x2028
    ||| n == 0x2029
    ||| n == 0x202F
    ||| n == 0x205F
    ||| n == 0x3000
}

/// `s` without its leading whitespace.
pub open spec fn trim_start_chars(s: Seq<char>) -> Seq<char>
    decreases s.len(),
{
    if s.len() > 0 && is_white_space(s[0]) {
        trim_start_chars(s.drop_first())
    } else {
        s
    }
}

/// `s` without its trailing whitespace.
pub open spec fn trim_end_chars(s: Seq<char>) -> Seq<char>
    decreases s.len(),
{
    if s.len() > 0 && is_white_space(s.last()) {
        trim_end_chars(s.drop_last())
    } else {
        s
    }
}

/// `s` without leading and trailing whitespace (what `str::trim` returns).
pub open spec fn trimmed(s: Seq<char>) -> Seq<char> {
    trim_end_chars(trim_start_chars(s))
}

/// Text that is empty once whitespace is trimmed.
pub open spec fn is_blank_text(s: Seq<char>) -> bool {
    trimmed(s).len() == 0
}

/// Summary rule: a blank summary falls back to the (trimmed) name; otherwise
/// the trimmed summary.
pub open spec fn default_text_of(summary: Seq<char>, name: Seq<char>) -> Seq<char> {
    if is_blank_text(summary) {
        trimmed(name)
    } else {
        trimmed(summary)
    }
}

/// Calls `str::trim`. Claims what its documentation states: leading and trailing
/// characters with the `White_Space` property are removed, nothing else.
#[verifier::external_body]
fn trim_str(s: &str) -> (r: &str)
    ensures
        r@ == trimmed(s@),
{
    s.trim()
}

/// Text equality over characters.
pub fn text_eq(a: &str, b: &str) -> (r: bool)
    ensures
        r == (a@ == b@),
{
    let n = a.unicode_len();
    let m = b.unicode_len();
    if n != m {
        return false;
    }
    let mut i: usize = 0;
    while i < n
        invariant
            n == a@.len(),
            m == b@.len(),
            n == m,
            i <= n,
            forall|k: int| 0 <= k < i ==> a@[k] == b@[k],
        decreases n - i,
    {
        if a.get_char(i) != b.get_char(i) {
            return false;
        }
        i = i + 1;
    }
    assert(a@ =~= b@);
    true
}

/// The trimmed text as an owned string.
pub fn trimmed_string(s: &str) -> (r: String)
    ensures
        r@ == trimmed(s@),
{
    trim_str(s).to_owned()
}

/// Whether the text is blank (empty after trimming).
pub fn is_blank(s: &str) -> (r: bool)
    ensures
        r == is_blank_text(s@),
{
    trim_str(s).is_empty()
}

/// Summary left blank falls back to the name (both trimmed).
pub fn default_text(summary: &str, name: &str) -> (r: String)
    ensures
        r@ == default_text_of(summary@, name@),
{
    if is_blank(summary) {
        trimmed_string(name)
    } else {
        trimmed_string(summary)
    }
}

} // verus!
