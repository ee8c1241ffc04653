//! What the executor and the registry answer, read into the values that the
//! reconciler decides on.

use crate::text::{chars_of, substring};
use vstd::prelude::*;

verus! {

/// Whether a character is white space.
pub open spec fn is_space(ch: char) -> bool {
    let code = ch as u32;
    ||| 0x09 <= code <= 0x0d
    ||| code == 0x20
    ||| code == 0x85
    ||| code == 0xa0
    ||| code == 0x1680
    ||| 0x2000 <= code <= 0x200a
    ||| code == 0x2028
    ||| code == 0x2029
    ||| code == 0x202f
    ||| code == 0x205f
    ||| code == 0x3000
}

/// Number of white space characters that `text` starts with.
pub open spec fn leading_spaces(text: Seq<char>) -> int
    decreases text.len(),
{
    if text.len() == 0 || !is_space(text[0]) {
        0
    } else {
        1 + leading_spaces(text.skip(1))
    }
}

/// Number of white space characters that `text` ends with.
pub open spec fn trailing_spaces(text: Seq<char>) -> int
    decreases text.len(),
{
    if text.len() == 0 || !is_space(text.last()) {
        0
    } else {
        1 + trailing_spaces(text.drop_last())
    }
}

/// `text` without the white space that it starts and ends with.
pub open spec fn trimmed(text: Seq<char>) -> Seq<char> {
    if leading_spaces(text) >= text.len() {
        Seq::empty()
    } else {
        text.subrange(leading_spaces(text), text.len() - trailing_spaces(text))
    }
}

/// Whether a character is white space.
pub fn is_whitespace(ch: char) -> (space: bool)
    ensures
        space == is_space(ch),
{
    let code = ch as u32;
    (0x09 <= code && code <= 0x0d) || code == 0x20 || code == 0x85 || code == 0xa0 || code
        == 0x1680 || (0x2000 <= code && code <= 0x200a) || code == 0x2028 || code == 0x2029
        || code == 0x202f || code == 0x205f || code == 0x3000
}

/// `text` without the white space that it starts and ends with.
pub fn trim(text: &str) -> (inner: String)
    ensures
        inner@ == trimmed(text@),
{
    let chars = chars_of(text);
    let mut start: usize = 0;
    assert(chars@.skip(0) =~= chars@);
    while start < chars.len() && is_whitespace(chars[start])
        invariant
            start <= chars.len(),
            leading_spaces(chars@) == start + leading_spaces(chars@.skip(start as int)),
        decreases chars.len() - start,
    {
        assert(chars@.skip(start as int)[0] == chars@[start as int]);
        assert(chars@.skip(start as int).skip(1) =~= chars@.skip(start + 1));
        start += 1;
    }
    if start < chars.len() {
        assert(chars@.skip(start as int)[0] == chars@[start as int]);
    }
    if start == chars.len() {
        return String::new();
    }
    let mut end: usize = chars.len();
    assert(chars@.take(end as int) =~= chars@);
    while is_whitespace(chars[end - 1])
        invariant
            start < end <= chars.len(),
            !is_space(chars@[start as int]),
            trailing_spaces(chars@) == chars.len() - end + trailing_spaces(chars@.take(end as int)),
        decreases end,
    {
        assert(chars@.take(end as int).last() == chars@[end - 1]);
        assert(chars@.take(end as int).drop_last() =~= chars@.take(end - 1));
        end -= 1;
    }
    assert(chars@.take(end as int).last() == chars@[end - 1]);
    substring(chars.as_slice(), start, end)
}

/// The digest of a local image, from the answer to its inspection: what the
/// inspection printed, without the white space around it, if the inspection
/// succeeded and printed anything else.
pub open spec fn local_digest_of(inspected: bool, output: Seq<char>) -> Option<Seq<char>> {
    if inspected && trimmed(output).len() > 0 {
        Some(trimmed(output))
    } else {
        None
    }
}

/// The digest of a local image, from the answer to its inspection.
pub fn local_digest(inspected: bool, output: &str) -> (digest: Option<String>)
    ensures
        match digest {
            Some(sha) => local_digest_of(inspected, output@) == Some(sha@),
            None => local_digest_of(inspected, output@) is None,
        },
{
    if !inspected {
        return None;
    }
    let sha = trim(output);
    if sha.as_str().is_empty() {
        None
    } else {
        Some(sha)
    }
}

/// Whether a Docker volume exists, from the listing of the volumes of its
/// name: it does if the listing holds anything but white space.
pub fn volume_exists(listing: &str) -> (exists: bool)
    ensures
        exists == (trimmed(listing@).len() > 0),
{
    !trim(listing).as_str().is_empty()
}

/// The digest that a registry reports for a manifest: the digest header of
/// its answer, if the request succeeded and the answer has that header.
pub fn remote_digest(succeeded: bool, digest_header: Option<String>) -> (digest: Option<String>)
    ensures
        digest == if succeeded {
            digest_header
        } else {
            None
        },
{
    if succeeded {
        digest_header
    } else {
        None
    }
}

} // verus!
