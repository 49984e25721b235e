//! The text operations of the standard library the rest leans on, each with
//! what its documentation says of it.

use vstd::prelude::*;
use vstd::string::StringExecFns;

verus! {

/// Whether `c` has the Unicode `White_Space` property.
pub open spec fn is_white_space(c: char) -> bool {
    let n = c as u32;
    ||| 0x9 <= n <= 0xd
    ||| n == 0x20
    ||| n == 0x85
    ||| n == 0xa0
    ||| n == 0x1680
    ||| 0x2000 <= n <= 0x200a
    ||| n == 0x2028
    ||| n == 0x2029
    ||| n == 0x202f
    ||| n == 0x205f
    ||| n == 0x3000
}

/// `text` without its leading white space.
pub open spec fn without_leading_space(text: Seq<char>) -> Seq<char>
    decreases text.len(),
{
    if text.len() > 0 && is_white_space(text[0]) {
        without_leading_space(text.drop_first())
    } else {
        text
    }
}

/// `text` without its trailing white space.
pub open spec fn without_trailing_space(text: Seq<char>) -> Seq<char>
    decreases text.len(),
{
    if text.len() > 0 && is_white_space(text.last()) {
        without_trailing_space(text.drop_last())
    } else {
        text
    }
}

/// `text` without its leading and trailing white space.
pub open spec fn without_surrounding_space(text: Seq<char>) -> Seq<char> {
    without_trailing_space(without_leading_space(text))
}

/// `text` begins with `prefix`.
pub open spec fn starts_with(text: Seq<char>, prefix: Seq<char>) -> bool {
    prefix.len() <= text.len() && text.subrange(0, prefix.len() as int) == prefix
}

/// Where `c` first occurs in `text`, or -1 when it does not.
pub open spec fn first_index_of(text: Seq<char>, c: char) -> int
    decreases text.len(),
{
    if text.len() == 0 {
        -1
    } else if text.last() == c && first_index_of(text.drop_last(), c) == -1 {
        text.len() - 1
    } else {
        first_index_of(text.drop_last(), c)
    }
}

/// `text` without the `c`s it starts with.
pub open spec fn without_leading(text: Seq<char>, c: char) -> Seq<char>
    decreases text.len(),
{
    if text.len() > 0 && text[0] == c {
        without_leading(text.drop_first(), c)
    } else {
        text
    }
}

/// The first occurrence is an occurrence, and nothing before it is one.
pub proof fn lemma_first_index_bounds(text: Seq<char>, c: char)
    ensures
        -1 <= first_index_of(text, c) < text.len(),
        first_index_of(text, c) >= 0 ==> text[first_index_of(text, c)] == c,
        first_index_of(text, c) == -1 ==> forall|j: int| 0 <= j < text.len() ==> text[j] != c,
        forall|j: int| 0 <= j < first_index_of(text, c) ==> text[j] != c,
    decreases text.len(),
{
    if text.len() > 0 {
        let rest = text.drop_last();
        lemma_first_index_bounds(rest, c);
        assert forall|j: int| 0 <= j < rest.len() implies rest[j] == text[j] by {}
    }
}

/// Calls `str::strip_prefix`: the text after `prefix` when the text starts
/// with it, as its documentation says, and `None` otherwise.
#[verifier::external_body]
pub(crate) fn strip_prefix<'a>(text: &'a str, prefix: &str) -> (rest: Option<&'a str>)
    ensures
        match rest {
            Some(after) => starts_with(text@, prefix@) && after@ == text@.subrange(
                prefix@.len() as int,
                text@.len() as int,
            ),
            None => !starts_with(text@, prefix@),
        },
{
    text.strip_prefix(prefix)
}

/// Calls `str::split_once`: the text before and after the first `c`, as its
/// documentation says, and `None` when there is no `c`.
#[verifier::external_body]
pub(crate) fn split_once(text: &str, c: char) -> (parts: Option<(&str, &str)>)
    ensures
        match parts {
            Some((before, after)) => first_index_of(text@, c) >= 0 && before@ == text@.subrange(
                0,
                first_index_of(text@, c),
            ) && after@ == text@.subrange(first_index_of(text@, c) + 1, text@.len() as int),
            None => first_index_of(text@, c) == -1,
        },
{
    text.split_once(c)
}

/// Calls `str::trim_start_matches` with a character: the text with every
/// leading `c` removed, as its documentation says.
#[verifier::external_body]
pub(crate) fn trim_leading(text: &str, c: char) -> (rest: &str)
    ensures
        rest@ == without_leading(text@, c),
{
    text.trim_start_matches(c)
}

/// Calls `==` on two string slices, which compares their text.
#[verifier::external_body]
pub(crate) fn same_text(a: &str, b: &str) -> (same: bool)
    ensures
        same == (a@ == b@),
{
    a == b
}

/// Three pieces of text joined, in order.
pub(crate) fn joined(a: &str, b: &str, c: &str) -> (text: String)
    ensures
        text@ == a@ + b@ + c@,
{
    String::from_str(a).concat(b).concat(c)
}

/// Calls `str::trim`, which its documentation describes as the text with its
/// leading and trailing `White_Space` characters removed, and claims exactly that.
#[verifier::external_body]
pub(crate) fn trim_space(text: &str) -> (trimmed: &str)
    ensures
        trimmed@ == without_surrounding_space(text@),
{
    text.trim()
}

} // verus!
