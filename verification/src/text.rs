//! Text as sequences of characters: the small vocabulary of searching,
//! cutting and joining that the rest of the library is written in.

use vstd::prelude::*;
use vstd::utf8::{char_u32_cast, decode_utf8, encode_utf8, encode_utf8_decode_utf8};

verus! {

/// `String::push` appends one character to the text.
pub assume_specification[ std::string::String::push ](text: &mut std::string::String, ch: char)
    ensures
        final(text)@ == old(text)@.push(ch),
;

/// Position of the first `ch` in `text`, or the length of `text` if there is none.
pub open spec fn find(text: Seq<char>, ch: char) -> int
    decreases text.len(),
{
    if text.len() == 0 || text[0] == ch {
        0
    } else {
        1 + find(text.skip(1), ch)
    }
}

/// Number of times `ch` occurs in `text`.
pub open spec fn count(text: Seq<char>, ch: char) -> nat
    decreases text.len(),
{
    if text.len() == 0 {
        0
    } else {
        (if text[0] == ch { 1nat } else { 0nat }) + count(text.skip(1), ch)
    }
}

/// `text` cut at its only `ch`: what stands before it and what stands after.
/// `None` unless `ch` occurs exactly once.
pub open spec fn split_pair(text: Seq<char>, ch: char) -> Option<(Seq<char>, Seq<char>)> {
    if count(text, ch) == 1 {
        Some((text.take(find(text, ch)), text.skip(find(text, ch) + 1)))
    } else {
        None
    }
}

/// Position of the last `ch` in `text`, or -1 if there is none.
pub open spec fn find_last(text: Seq<char>, ch: char) -> int
    decreases text.len(),
{
    if text.len() == 0 {
        -1
    } else if text.last() == ch {
        text.len() - 1
    } else {
        find_last(text.drop_last(), ch)
    }
}

/// `text` cut at its last `ch`: what stands before it and what stands after.
/// `None` if `ch` does not occur.
pub open spec fn split_last(text: Seq<char>, ch: char) -> Option<(Seq<char>, Seq<char>)> {
    let at = find_last(text, ch);
    if at >= 0 {
        Some((text.take(at), text.skip(at + 1)))
    } else {
        None
    }
}

/// What `find_last` returns is in range, points at `ch` if at anything, and
/// nothing after it is `ch`.
pub proof fn lemma_find_last(text: Seq<char>, ch: char)
    ensures
        -1 <= find_last(text, ch) < text.len(),
        find_last(text, ch) >= 0 ==> text[find_last(text, ch)] == ch,
        forall|i: int| find_last(text, ch) < i < text.len() ==> text[i] != ch,
        find_last(text, ch) >= 0 <==> text.contains(ch),
    decreases text.len(),
{
    if text.len() == 0 {
    } else if text.last() == ch {
        assert(text[text.len() - 1] == ch);
    } else {
        let front = text.drop_last();
        lemma_find_last(front, ch);
        assert forall|i: int| find_last(text, ch) < i < text.len() implies text[i] != ch by {
            if i < front.len() {
                assert(front[i] == text[i]);
            }
        }
        if find_last(text, ch) >= 0 {
            assert(front[find_last(front, ch)] == text[find_last(text, ch)]);
        }
        if text.contains(ch) {
            let i = choose|i: int| 0 <= i < text.len() && text[i] == ch;
            assert(front[i] == ch);
        }
    }
}

/// Whether `a` comes before `b`, or is `b`, where texts are ordered character
/// by character, by the characters' code points, a text coming before all
/// that it begins.
pub open spec fn precedes(a: Seq<char>, b: Seq<char>) -> bool
    decreases a.len(),
{
    if a.len() == 0 {
        true
    } else if b.len() == 0 {
        false
    } else if a[0] == b[0] {
        precedes(a.skip(1), b.skip(1))
    } else {
        (a[0] as u32) < (b[0] as u32)
    }
}

/// Of two texts one comes before the other, or is it.
pub proof fn lemma_precedes_total(a: Seq<char>, b: Seq<char>)
    ensures
        precedes(a, b) || precedes(b, a),
    decreases a.len(),
{
    if a.len() > 0 && b.len() > 0 {
        if a[0] == b[0] {
            lemma_precedes_total(a.skip(1), b.skip(1));
        } else {
            char_u32_cast(a[0], a[0] as u32);
            char_u32_cast(b[0], b[0] as u32);
        }
    }
}

/// What comes before a text that comes before a third comes before the
/// third.
pub proof fn lemma_precedes_transitive(a: Seq<char>, b: Seq<char>, c: Seq<char>)
    requires
        precedes(a, b),
        precedes(b, c),
    ensures
        precedes(a, c),
    decreases a.len(),
{
    if a.len() > 0 && b.len() > 0 && c.len() > 0 && a[0] == b[0] && b[0] == c[0] {
        lemma_precedes_transitive(a.skip(1), b.skip(1), c.skip(1));
    }
}

/// Two texts that come before each other are one text.
pub proof fn lemma_precedes_antisymmetric(a: Seq<char>, b: Seq<char>)
    requires
        precedes(a, b),
        precedes(b, a),
    ensures
        a == b,
    decreases a.len(),
{
    if a.len() > 0 && b.len() > 0 {
        lemma_precedes_antisymmetric(a.skip(1), b.skip(1));
        assert(a =~= seq![a[0]] + a.skip(1));
        assert(b =~= seq![b[0]] + b.skip(1));
    } else {
        assert(a =~= b);
    }
}

/// The texts of a run of strings.
pub open spec fn texts(strings: Seq<String>) -> Seq<Seq<char>> {
    Seq::new(strings.len(), |i: int| strings[i]@)
}

/// What `find` returns is in range, points at `ch` if anything, and nothing
/// before it is `ch`.
pub proof fn lemma_find(text: Seq<char>, ch: char)
    ensures
        0 <= find(text, ch) <= text.len(),
        find(text, ch) < text.len() ==> text[find(text, ch)] == ch,
        forall|i: int| 0 <= i < find(text, ch) ==> text[i] != ch,
        find(text, ch) < text.len() <==> text.contains(ch),
        find(text, ch) < text.len() <==> count(text, ch) > 0,
    decreases text.len(),
{
    if text.len() == 0 || text[0] == ch {
    } else {
        let rest = text.skip(1);
        lemma_find(rest, ch);
        assert forall|i: int| 0 <= i < find(text, ch) implies text[i] != ch by {
            if i > 0 {
                assert(rest[i - 1] == text[i]);
            }
        }
        if find(text, ch) < text.len() {
            assert(rest[find(rest, ch)] == text[find(text, ch)]);
        }
        if text.contains(ch) {
            let i = choose|i: int| 0 <= i < text.len() && text[i] == ch;
            assert(rest[i - 1] == ch);
        }
    }
}

/// The characters of `text`, one by one.
pub fn chars_of(text: &str) -> (chars: Vec<char>)
    ensures
        chars@ == text@,
{
    let mut chars: Vec<char> = Vec::new();
    for ch in it: text.chars()
        invariant
            chars@ == it.seq().take(it.index() as int),
            it.seq() == text@,
    {
        chars.push(ch);
    }
    chars
}

/// Taking one more character into account adds it to the count if it is `ch`.
pub proof fn lemma_count_push(text: Seq<char>, last: char, ch: char)
    ensures
        count(text.push(last), ch) == count(text, ch) + (if last == ch { 1nat } else { 0nat }),
    decreases text.len(),
{
    if text.len() == 0 {
        assert(text.push(last).skip(1) =~= text);
    } else {
        assert(text.push(last).skip(1) =~= text.skip(1).push(last));
        lemma_count_push(text.skip(1), last, ch);
    }
}

/// The first `ch` is at `at` if `ch` is there and nowhere before, or if `at`
/// is the length of the text and `ch` is nowhere.
pub proof fn lemma_find_is(text: Seq<char>, ch: char, at: int)
    requires
        0 <= at <= text.len(),
        forall|i: int| 0 <= i < at ==> text[i] != ch,
        at < text.len() ==> text[at] == ch,
    ensures
        find(text, ch) == at,
{
    lemma_find(text, ch);
    let found = find(text, ch);
    if found < at {
        assert(text[found] != ch);
    } else if found > at {
        assert(text[at] != ch);
    }
}

/// Occurrences add up over the parts of a text.
pub proof fn lemma_count_concat(first: Seq<char>, second: Seq<char>, ch: char)
    ensures
        count(first + second, ch) == count(first, ch) + count(second, ch),
    decreases second.len(),
{
    if second.len() == 0 {
        assert(first + second =~= first);
    } else {
        let front = second.drop_last();
        lemma_count_concat(first, front, ch);
        lemma_count_push(first + front, second.last(), ch);
        lemma_count_push(front, second.last(), ch);
        assert((first + front).push(second.last()) =~= first + second);
        assert(front.push(second.last()) =~= second);
    }
}

/// Two texts without `ch`, joined by one `ch`, are cut at that `ch` into
/// the two texts again.
pub proof fn lemma_split_pair_of_joined(before: Seq<char>, after: Seq<char>, ch: char)
    requires
        !before.contains(ch),
        !after.contains(ch),
    ensures
        split_pair(before + seq![ch] + after, ch) == Some((before, after)),
{
    let joined = before + seq![ch] + after;
    lemma_find(before, ch);
    lemma_find(after, ch);
    lemma_count_concat(before + seq![ch], after, ch);
    lemma_count_push(before, ch, ch);
    assert(before.push(ch) =~= before + seq![ch]);
    assert forall|i: int| 0 <= i < before.len() implies joined[i] != ch by {
        assert(joined[i] == before[i]);
        assert(before.contains(before[i]));
    }
    assert(joined[before.len() as int] == ch);
    lemma_find_is(joined, ch, before.len() as int);
    assert(joined.take(before.len() as int) =~= before);
    assert(joined.skip(before.len() as int + 1) =~= after);
}

/// Position of the first `ch` among `chars`, or their number if there is none.
pub fn find_char(chars: &[char], ch: char) -> (position: usize)
    ensures
        position == find(chars@, ch),
        position <= chars.len(),
{
    let mut i: usize = 0;
    assert(chars@.skip(0) =~= chars@);
    while i < chars.len()
        invariant
            i <= chars.len(),
            find(chars@, ch) == i + find(chars@.skip(i as int), ch),
        decreases chars.len() - i,
    {
        assert(chars@.skip(i as int)[0] == chars@[i as int]);
        assert(chars@.skip(i as int).skip(1) =~= chars@.skip(i + 1));
        if chars[i] == ch {
            return i;
        }
        i += 1;
    }
    i
}

/// Number of times `ch` occurs among `chars`.
pub fn count_char(chars: &[char], ch: char) -> (n: usize)
    ensures
        n == count(chars@, ch),
{
    let mut n: usize = 0;
    let mut i: usize = 0;
    while i < chars.len()
        invariant
            i <= chars.len(),
            n <= i,
            n == count(chars@.take(i as int), ch),
        decreases chars.len() - i,
    {
        proof {
            lemma_count_push(chars@.take(i as int), chars@[i as int], ch);
            assert(chars@.take(i + 1) =~= chars@.take(i as int).push(chars@[i as int]));
        }
        if chars[i] == ch {
            n += 1;
        }
        i += 1;
    }
    assert(chars@.take(i as int) =~= chars@);
    n
}

/// The text made of the characters from position `from` up to, not
/// including, position `to`.
pub fn substring(chars: &[char], from: usize, to: usize) -> (text: String)
    requires
        from <= to <= chars.len(),
    ensures
        text@ == chars@.subrange(from as int, to as int),
{
    let mut text = String::new();
    let mut i: usize = from;
    while i < to
        invariant
            from <= i <= to <= chars.len(),
            text@ == chars@.subrange(from as int, i as int),
        decreases to - i,
    {
        text.push(chars[i]);
        assert(chars@.subrange(from as int, i + 1) =~= chars@.subrange(from as int, i as int).push(
            chars@[i as int],
        ));
        i += 1;
    }
    text
}

/// Cuts `text` at its only `ch`. `None` unless `ch` occurs exactly once.
pub fn split_once_only(text: &str, ch: char) -> (halves: Option<(String, String)>)
    ensures
        match halves {
            Some((before, after)) => split_pair(text@, ch) == Some((before@, after@)),
            None => split_pair(text@, ch) is None,
        },
{
    let chars = chars_of(text);
    if count_char(chars.as_slice(), ch) != 1 {
        return None;
    }
    let at = find_char(chars.as_slice(), ch);
    proof {
        lemma_find(chars@, ch);
    }
    let before = substring(chars.as_slice(), 0, at);
    let after = substring(chars.as_slice(), at + 1, chars.len());
    Some((before, after))
}

/// Cuts `text` at its last `ch`. `None` if `ch` does not occur.
pub fn split_at_last(text: &str, ch: char) -> (halves: Option<(String, String)>)
    ensures
        match halves {
            Some((before, after)) => split_last(text@, ch) == Some((before@, after@)),
            None => split_last(text@, ch) is None,
        },
{
    let chars = chars_of(text);
    let mut end: usize = chars.len();
    assert(chars@.take(end as int) =~= chars@);
    while end > 0
        invariant
            end <= chars.len(),
            chars@ == text@,
            find_last(chars@, ch) == find_last(chars@.take(end as int), ch),
        decreases end,
    {
        assert(chars@.take(end as int).last() == chars@[end - 1]);
        assert(chars@.take(end as int).drop_last() =~= chars@.take(end - 1));
        if chars[end - 1] == ch {
            let before = substring(chars.as_slice(), 0, end - 1);
            let after = substring(chars.as_slice(), end, chars.len());
            assert(before@ =~= chars@.take(end - 1));
            assert(after@ =~= chars@.skip(end as int));
            return Some((before, after));
        }
        end -= 1;
    }
    None
}

/// Whether `ch` occurs in `text`.
pub fn contains_char(text: &str, ch: char) -> (found: bool)
    ensures
        found == text@.contains(ch),
{
    let chars = chars_of(text);
    proof {
        lemma_find(chars@, ch);
    }
    find_char(chars.as_slice(), ch) < chars.len()
}

/// `a` followed by `b`.
pub fn concat(a: &str, b: &str) -> (joined: String)
    ensures
        joined@ == a@ + b@,
{
    let mut joined = String::new();
    for ch in it: a.chars()
        invariant
            it.seq() == a@,
            joined@ == a@.take(it.index() as int),
    {
        joined.push(ch);
    }
    for ch in it: b.chars()
        invariant
            it.seq() == b@,
            joined@ == a@ + b@.take(it.index() as int),
    {
        joined.push(ch);
    }
    joined
}

/// Whether `text` begins with `prefix`.
pub fn starts_with(text: &str, prefix: &str) -> (yes: bool)
    ensures
        yes == prefix@.is_prefix_of(text@),
{
    let t = chars_of(text);
    let p = chars_of(prefix);
    if p.len() > t.len() {
        return false;
    }
    let mut i: usize = 0;
    while i < p.len()
        invariant
            i <= p.len() <= t.len(),
            p@ == prefix@,
            t@ == text@,
            p@.take(i as int) == t@.take(i as int),
        decreases p.len() - i,
    {
        if p[i] != t[i] {
            assert(t@.subrange(0, p@.len() as int)[i as int] != p@[i as int]);
            return false;
        }
        assert(p@.take(i + 1) =~= p@.take(i as int).push(p@[i as int]));
        assert(t@.take(i + 1) =~= t@.take(i as int).push(t@[i as int]));
        i += 1;
    }
    assert(p@.take(i as int) =~= p@);
    assert(t@.take(i as int) =~= t@.subrange(0, p@.len() as int));
    true
}

/// Whether `a` comes before `b`, or is `b`, in the order of their
/// characters' code points.
pub fn comes_before(a: &str, b: &str) -> (before: bool)
    ensures
        before == precedes(a@, b@),
{
    let x = chars_of(a);
    let y = chars_of(b);
    let mut i: usize = 0;
    assert(x@.skip(0) =~= x@);
    assert(y@.skip(0) =~= y@);
    while i < x.len() && i < y.len()
        invariant
            i <= x.len(),
            i <= y.len(),
            x@ == a@,
            y@ == b@,
            precedes(a@, b@) == precedes(x@.skip(i as int), y@.skip(i as int)),
        decreases x.len() - i,
    {
        assert(x@.skip(i as int)[0] == x@[i as int]);
        assert(y@.skip(i as int)[0] == y@[i as int]);
        assert(x@.skip(i as int).skip(1) =~= x@.skip(i + 1));
        assert(y@.skip(i as int).skip(1) =~= y@.skip(i + 1));
        if x[i] != y[i] {
            return (x[i] as u32) < (y[i] as u32);
        }
        i += 1;
    }
    i == x.len()
}

/// Whether two texts are the same, character for character.
pub fn same_text(a: &str, b: &str) -> (same: bool)
    ensures
        same == (a@ == b@),
{
    let x = a.as_bytes();
    let y = b.as_bytes();
    proof {
        encode_utf8_decode_utf8(a@);
        encode_utf8_decode_utf8(b@);
    }
    if x.len() != y.len() {
        return false;
    }
    let mut i: usize = 0;
    while i < x.len()
        invariant
            i <= x.len(),
            x.len() == y.len(),
            x@.take(i as int) == y@.take(i as int),
            x@ == encode_utf8(a@),
            y@ == encode_utf8(b@),
            decode_utf8(encode_utf8(a@)) == a@,
            decode_utf8(encode_utf8(b@)) == b@,
        decreases x.len() - i,
    {
        if x[i] != y[i] {
            return false;
        }
        assert(x@.take(i + 1) =~= x@.take(i as int).push(x@[i as int]));
        assert(y@.take(i + 1) =~= y@.take(i as int).push(y@[i as int]));
        i += 1;
    }
    assert(x@ =~= x@.take(i as int));
    assert(y@ =~= y@.take(i as int));
    true
}

} // verus!
