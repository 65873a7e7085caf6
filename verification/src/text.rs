//! Text operations of the standard library that the library relies on.
use vstd::prelude::*;

verus! {

/// The characters with the Unicode White_Space property, which is what
/// `str::trim` drops.
pub open spec fn is_white_space(c: char) -> bool {
    let n = c as u32;
    ||| 0x9 <= n <= 0xd
    ||| n == 0x20
    ||| n == 0x85
    ||| n == 0xa0
    ||| n == 0x1680
    ||| 0x2000 <= n <= 0x200a
    ||| n == 0x2028
    ||| n == 0x2029
    ||| n == 0x202f
    ||| n == 0x205f
    ||| n == 0x3000
}

/// `s` without its leading white space.
pub open spec fn trim_start(s: Seq<char>) -> Seq<char>
    decreases s.len(),
{
    if s.len() > 0 && is_white_space(s[0]) {
        trim_start(s.drop_first())
    } else {
        s
    }
}

/// `s` without its trailing white space.
pub open spec fn trim_end(s: Seq<char>) -> Seq<char>
    decreases s.len(),
{
    if s.len() > 0 && is_white_space(s.last()) {
        trim_end(s.drop_last())
    } else {
        s
    }
}

/// What `str::trim` gives for a text: the text without its leading and
/// trailing white space.
pub open spec fn trimmed(s: Seq<char>) -> Seq<char> {
    trim_end(trim_start(s))
}

/// What `str::to_lowercase` gives for a text.
pub uninterp spec fn lowercased(s: Seq<char>) -> Seq<char>;

/// What `{:?}` formatting writes for a text.
pub uninterp spec fn debug_text(s: Seq<char>) -> Seq<char>;

proof fn lemma_trim_start_keeps(s: Seq<char>, i: int)
    requires
        0 <= i < s.len(),
        !is_white_space(s[i]),
    ensures
        exists|j: int| 0 <= j < trim_start(s).len() && !is_white_space(#[trigger] trim_start(s)[j]),
    decreases s.len(),
{
    if s.len() > 0 && is_white_space(s[0]) {
        assert(i > 0);
        assert(s.drop_first()[i - 1] == s[i]);
        lemma_trim_start_keeps(s.drop_first(), i - 1);
        assert(trim_start(s) == trim_start(s.drop_first()));
    } else {
        assert(!is_white_space(trim_start(s)[i]));
    }
}

proof fn lemma_trim_end_nonempty(s: Seq<char>, i: int)
    requires
        0 <= i < s.len(),
        !is_white_space(s[i]),
    ensures
        trim_end(s).len() > 0,
    decreases s.len(),
{
    if s.len() > 0 && is_white_space(s.last()) {
        assert(i < s.len() - 1);
        assert(s.drop_last()[i] == s[i]);
        lemma_trim_end_nonempty(s.drop_last(), i);
    }
}

/// A text with a character that is not white space is not blank.
pub proof fn lemma_not_blank(s: Seq<char>, i: int)
    requires
        0 <= i < s.len(),
        !is_white_space(s[i]),
    ensures
        trimmed(s).len() > 0,
{
    lemma_trim_start_keeps(s, i);
    let t = trim_start(s);
    let j = choose|j: int| 0 <= j < t.len() && !is_white_space(#[trigger] t[j]);
    lemma_trim_end_nonempty(t, j);
}

/// Calls `str::trim`, which drops leading and trailing characters with the
/// Unicode White_Space property; the contract states that result.
#[verifier::external_body]
pub fn trim_text(s: &str) -> (r: &str)
    ensures
        r@ == trimmed(s@),
{
    s.trim()
}

/// Calls `str::to_lowercase`, which maps every character to its Unicode
/// lowercase form. The contract names the result and states nothing more
/// of it.
#[verifier::external_body]
pub fn lowercase_text(s: &str) -> (r: String)
    ensures
        r@ == lowercased(s@),
{
    s.to_lowercase()
}

/// Formats `s` with `{:?}`: the text in double quotes, with special
/// characters escaped. The contract names the result and states nothing
/// more of it.
#[verifier::external_body]
pub fn debug_quoted(s: &str) -> (r: String)
    ensures
        r@ == debug_text(s@),
{
    format!("{:?}", s)
}

/// Whether a text is empty or white space only.
pub fn is_blank(s: &str) -> (r: bool)
    ensures
        r == (trimmed(s@).len() == 0),
{
    trim_text(s).unicode_len() == 0
}

} // verus!
