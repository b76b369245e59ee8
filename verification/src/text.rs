//! Text as a sequence of characters: trimming, cutting and splitting at a
//! character, and comparison without regard to ASCII case.

use vstd::prelude::*;
use vstd::string::*;

verus! {

/// `text` without the run of `c` it starts with.
pub open spec fn strip_leading(text: Seq<char>, c: char) -> Seq<char>
    decreases text.len(),
{
    if text.len() > 0 && text.first() == c {
        strip_leading(text.drop_first(), c)
    } else {
        text
    }
}

/// `text` without the run of `c` it ends with.
pub open spec fn strip_trailing(text: Seq<char>, c: char) -> Seq<char>
    decreases text.len(),
{
    if text.len() > 0 && text.last() == c {
        strip_trailing(text.drop_last(), c)
    } else {
        text
    }
}

/// `text` without the runs of `c` at either end.
pub open spec fn trimmed(text: Seq<char>, c: char) -> Seq<char> {
    strip_trailing(strip_leading(text, c), c)
}

/// Whether `code` is the code point of some character of `text`.
pub open spec fn has_code(text: Seq<char>, code: u32) -> bool {
    exists|i: int| 0 <= i < text.len() && #[trigger] text[i] as u32 == code
}

/// The number of characters of `text` before the first one whose code point
/// is `code`; the length of `text` where there is none.
pub open spec fn first_index(text: Seq<char>, code: u32) -> nat
    decreases text.len(),
{
    if text.len() == 0 || text.first() as u32 == code {
        0
    } else {
        1 + first_index(text.drop_first(), code)
    }
}

/// The pieces of `text` between the occurrences of `sep`, in order. A text
/// with `k` separators has `k + 1` pieces, some of which may be empty.
pub open spec fn pieces(text: Seq<char>, sep: char) -> Seq<Seq<char>>
    decreases text.len(),
{
    let cut = first_index(text, sep as u32);
    if cut >= text.len() {
        seq![text]
    } else {
        seq![text.take(cut as int)] + pieces(text.skip(cut as int + 1), sep)
    }
}

/// The lower-case form of an ASCII capital; any other character itself.
pub open spec fn ascii_lower(c: char) -> char {
    if 'A' <= c && c <= 'Z' {
        ((c as u32) + 32) as char
    } else {
        c
    }
}

/// Equality of two texts when ASCII capitals count as their lower-case forms.
pub open spec fn same_ignoring_ascii_case(a: Seq<char>, b: Seq<char>) -> bool {
    &&& a.len() == b.len()
    &&& forall|i: int| 0 <= i < a.len() ==> ascii_lower(a[i]) == ascii_lower(#[trigger] b[i])
}

/// What `str::to_lowercase` makes of a text: its lower-case form by the
/// Unicode case mappings.
pub uninterp spec fn lowercase(text: Seq<char>) -> Seq<char>;

/// Two characters are the same exactly when their code points are.
pub proof fn lemma_code_identifies(a: char, b: char)
    ensures
        (a as u32 == b as u32) == (a == b),
{
    vstd::utf8::char_u32_cast(a, a as u32);
    vstd::utf8::char_u32_cast(b, b as u32);
}

/// `first_index` stops at the first occurrence and nowhere before it.
pub proof fn lemma_first_index(text: Seq<char>, code: u32)
    ensures
        first_index(text, code) <= text.len(),
        forall|i: int| 0 <= i < first_index(text, code) ==> #[trigger] text[i] as u32 != code,
        first_index(text, code) < text.len() ==> text[first_index(text, code) as int] as u32 == code,
        has_code(text, code) <==> first_index(text, code) < text.len(),
    decreases text.len(),
{
    if text.len() == 0 || text.first() as u32 == code {
    } else {
        let rest = text.drop_first();
        lemma_first_index(rest, code);
        assert forall|i: int| 0 <= i < first_index(text, code) implies #[trigger] text[i] as u32
            != code by {
            if i > 0 {
                assert(text[i] == rest[i - 1]);
            }
        }
        if first_index(text, code) < text.len() {
            assert(text[first_index(text, code) as int] == rest[first_index(rest, code) as int]);
        }
        if has_code(text, code) {
            let i = choose|i: int| 0 <= i < text.len() && #[trigger] text[i] as u32 == code;
            assert(text[i] == rest[i - 1]);
        }
    }
}

/// An index that holds the code and has none before it is the first index.
pub proof fn lemma_first_index_is(text: Seq<char>, code: u32, at: int)
    requires
        0 <= at <= text.len(),
        forall|i: int| 0 <= i < at ==> #[trigger] text[i] as u32 != code,
        at < text.len() ==> text[at] as u32 == code,
    ensures
        first_index(text, code) == at,
{
    lemma_first_index(text, code);
}

/// No piece holds the separator.
pub proof fn lemma_pieces_hold_no_separator(text: Seq<char>, sep: char)
    ensures
        pieces(text, sep).len() >= 1,
        forall|i: int| 0 <= i < pieces(text, sep).len() ==> !(#[trigger] pieces(text, sep)[i]).contains(sep),
    decreases text.len(),
{
    let cut = first_index(text, sep as u32) as int;
    lemma_first_index(text, sep as u32);
    let head = text.take(cut);
    assert(!head.contains(sep)) by {
        if head.contains(sep) {
            let j = choose|j: int| 0 <= j < head.len() && head[j] == sep;
            assert(text[j] == sep);
        }
    }
    if cut >= text.len() {
        assert(head =~= text);
    } else {
        let rest = pieces(text.skip(cut + 1), sep);
        lemma_pieces_hold_no_separator(text.skip(cut + 1), sep);
        assert forall|i: int| 0 <= i < pieces(text, sep).len() implies !(#[trigger] pieces(
            text,
            sep,
        )[i]).contains(sep) by {
            if i > 0 {
                assert(pieces(text, sep)[i] == rest[i - 1]);
            }
        }
    }
}

/// A text whose pieces are all empty holds nothing but separators.
pub proof fn lemma_empty_pieces(text: Seq<char>, sep: char)
    requires
        forall|i: int| 0 <= i < pieces(text, sep).len() ==> (#[trigger] pieces(text, sep)[i]).len() == 0,
    ensures
        forall|j: int| 0 <= j < text.len() ==> #[trigger] text[j] == sep,
    decreases text.len(),
{
    let cut = first_index(text, sep as u32) as int;
    lemma_first_index(text, sep as u32);
    assert(pieces(text, sep)[0] == text.take(cut));
    if cut < text.len() {
        let tail = text.skip(cut + 1);
        let rest = pieces(tail, sep);
        assert forall|i: int| 0 <= i < rest.len() implies (#[trigger] rest[i]).len() == 0 by {
            assert(pieces(text, sep)[i + 1] == rest[i]);
        }
        lemma_empty_pieces(tail, sep);
        lemma_code_identifies(text[0], sep);
        assert forall|j: int| 0 <= j < text.len() implies #[trigger] text[j] == sep by {
            if j > 0 {
                assert(text[j] == tail[j - 1]);
            }
        }
    }
}

/// What is left of a text without a leading run is part of the text.
pub proof fn lemma_strip_leading_within(text: Seq<char>, c: char)
    ensures
        forall|x: char| strip_leading(text, c).contains(x) ==> text.contains(x),
    decreases text.len(),
{
    if text.len() > 0 && text.first() == c {
        let rest = text.drop_first();
        lemma_strip_leading_within(rest, c);
        assert forall|x: char| strip_leading(text, c).contains(x) implies text.contains(x) by {
            assert(strip_leading(rest, c).contains(x));
            assert(rest.contains(x));
            let i = choose|i: int| 0 <= i < rest.len() && rest[i] == x;
            assert(text[i + 1] == x);
        }
    }
}

/// What is left of a text without a trailing run is part of the text.
pub proof fn lemma_strip_trailing_within(text: Seq<char>, c: char)
    ensures
        forall|x: char| strip_trailing(text, c).contains(x) ==> text.contains(x),
    decreases text.len(),
{
    if text.len() > 0 && text.last() == c {
        let rest = text.drop_last();
        lemma_strip_trailing_within(rest, c);
        assert forall|x: char| strip_trailing(text, c).contains(x) implies text.contains(x) by {
            assert(strip_trailing(rest, c).contains(x));
            assert(rest.contains(x));
            let i = choose|i: int| 0 <= i < rest.len() && rest[i] == x;
            assert(text[i] == x);
        }
    }
}

/// A trimmed text holds no character that the text does not hold.
pub proof fn lemma_trimmed_within(text: Seq<char>, c: char)
    ensures
        forall|x: char| trimmed(text, c).contains(x) ==> text.contains(x),
{
    lemma_strip_leading_within(text, c);
    lemma_strip_trailing_within(strip_leading(text, c), c);
}

/// One more `c` at the end of a text adds to what is left without the
/// leading run, unless the text is such a run throughout.
pub proof fn lemma_strip_leading_push(text: Seq<char>, c: char)
    ensures
        strip_leading(text.push(c), c) == if strip_leading(text, c).len() == 0 {
            Seq::<char>::empty()
        } else {
            strip_leading(text, c).push(c)
        },
    decreases text.len(),
{
    if text.len() == 0 {
        assert(text.push(c).drop_first() =~= Seq::<char>::empty());
        assert(strip_leading(Seq::<char>::empty(), c) =~= Seq::<char>::empty());
    } else if text.first() == c {
        lemma_strip_leading_push(text.drop_first(), c);
        assert(text.push(c).drop_first() =~= text.drop_first().push(c));
    } else {
    }
}

/// One more `c` at either end of a text leaves the trimmed text as it is.
pub proof fn lemma_trimmed_ignores_ends(text: Seq<char>, c: char)
    ensures
        trimmed(seq![c] + text, c) == trimmed(text, c),
        trimmed(text.push(c), c) == trimmed(text, c),
{
    assert((seq![c] + text).drop_first() =~= text);
    lemma_strip_leading_push(text, c);
    let inner = strip_leading(text, c);
    if inner.len() == 0 {
        assert(strip_trailing(Seq::<char>::empty(), c) =~= Seq::<char>::empty());
    } else {
        assert(inner.push(c).drop_last() =~= inner);
    }
}

/// The characters of a string, in order.
pub fn chars_of(text: &str) -> (chars: Vec<char>)
    ensures
        chars@ == text@,
{
    let mut chars: Vec<char> = Vec::new();
    for c in it: text.chars()
        invariant
            it.seq() == text@,
            chars@ =~= it.seq().take(it.index() as int),
    {
        chars.push(c);
    }
    chars
}

/// The string without the runs of `c` at either end.
pub fn trim_matches<'a>(text: &'a str, c: char) -> (out: &'a str)
    ensures
        out@ == trimmed(text@, c),
{
    let chars = chars_of(text);
    let n = chars.len();
    let mut from: usize = 0;
    assert(chars@.skip(0) =~= chars@);
    while from < n && chars[from] == c
        invariant
            from <= n == chars@.len(),
            strip_leading(chars@, c) == strip_leading(chars@.skip(from as int), c),
        decreases n - from,
    {
        assert(chars@.skip(from as int).drop_first() =~= chars@.skip(from + 1));
        from += 1;
    }
    let mut to: usize = n;
    while to > from && chars[to - 1] == c
        invariant
            from <= to <= n == chars@.len(),
            strip_trailing(chars@.skip(from as int), c) == strip_trailing(
                chars@.subrange(from as int, to as int),
                c,
            ),
        decreases to,
    {
        assert(chars@.subrange(from as int, to as int).drop_last() =~= chars@.subrange(
            from as int,
            to - 1,
        ));
        to -= 1;
    }
    assert(chars@.skip(from as int) =~= chars@.subrange(from as int, n as int));
    text.substring_char(from, to)
}

/// The string without the run of `c` it starts with.
pub fn trim_start_matches<'a>(text: &'a str, c: char) -> (out: &'a str)
    ensures
        out@ == strip_leading(text@, c),
{
    let chars = chars_of(text);
    let n = chars.len();
    let mut from: usize = 0;
    assert(chars@.skip(0) =~= chars@);
    while from < n && chars[from] == c
        invariant
            from <= n == chars@.len(),
            strip_leading(chars@, c) == strip_leading(chars@.skip(from as int), c),
        decreases n - from,
    {
        assert(chars@.skip(from as int).drop_first() =~= chars@.skip(from + 1));
        from += 1;
    }
    assert(chars@.skip(from as int) =~= chars@.subrange(from as int, n as int));
    text.substring_char(from, n)
}

/// Whether `c` occurs in the string.
pub fn contains(text: &str, c: char) -> (found: bool)
    ensures
        found == text@.contains(c),
{
    let chars = chars_of(text);
    let mut i: usize = 0;
    while i < chars.len()
        invariant
            i <= chars@.len(),
            chars@ == text@,
            forall|k: int| 0 <= k < i ==> chars@[k] != c,
        decreases chars.len() - i,
    {
        if chars[i] == c {
            return true;
        }
        i += 1;
    }
    false
}

/// The views of a list of string slices.
pub open spec fn views_of(items: Seq<&str>) -> Seq<Seq<char>> {
    Seq::new(items.len(), |i: int| items[i]@)
}

/// The number of characters before the first occurrence of the code point
/// `code`, or the number of all characters where it does not occur.
pub fn find(text: &str, code: u32) -> (at: usize)
    ensures
        at == first_index(text@, code),
{
    let chars = chars_of(text);
    let mut at: usize = 0;
    while at < chars.len() && chars[at] as u32 != code
        invariant
            at <= chars@.len(),
            forall|i: int| 0 <= i < at ==> #[trigger] chars@[i] as u32 != code,
        decreases chars.len() - at,
    {
        at += 1;
    }
    proof {
        lemma_first_index_is(text@, code, at as int);
    }
    at
}

/// The pieces of the string between the occurrences of `sep`.
pub fn split<'a>(text: &'a str, sep: char) -> (out: Vec<&'a str>)
    ensures
        views_of(out@) == pieces(text@, sep),
{
    let chars = chars_of(text);
    let n = chars.len();
    let mut out: Vec<&'a str> = Vec::new();
    let mut start: usize = 0;
    let mut i: usize = 0;
    assert(text@.skip(0) =~= text@);
    while i < n
        invariant
            start <= i <= n == chars@.len(),
            chars@ == text@,
            forall|k: int| start <= k < i ==> #[trigger] chars@[k] != sep,
            pieces(text@, sep) =~= views_of(out@) + pieces(text@.skip(start as int), sep),
        decreases n - i,
    {
        if chars[i] == sep {
            let ghost tail = text@.skip(start as int);
            proof {
                assert forall|k: int| 0 <= k < i - start implies #[trigger] tail[k] as u32
                    != sep as u32 by {
                    assert(tail[k] == chars@[start + k]);
                    lemma_code_identifies(tail[k], sep);
                }
                lemma_first_index_is(tail, sep as u32, i - start);
                assert(tail.take(i - start) =~= text@.subrange(start as int, i as int));
                assert(tail.skip(i - start + 1) =~= text@.skip(i + 1));
            }
            out.push(text.substring_char(start, i));
            start = i + 1;
        }
        i += 1;
    }
    proof {
        let tail = text@.skip(start as int);
        assert forall|k: int| 0 <= k < n - start implies #[trigger] tail[k] as u32 != sep as u32 by {
            assert(tail[k] == chars@[start + k]);
            lemma_code_identifies(tail[k], sep);
        }
        lemma_first_index_is(tail, sep as u32, n - start);
        assert(tail =~= text@.subrange(start as int, n as int));
    }
    out.push(text.substring_char(start, n));
    assert(views_of(out@) =~= pieces(text@, sep));
    out
}

/// Whether two strings hold the same characters.
pub fn same(a: &str, b: &str) -> (equal: bool)
    ensures
        equal == (a@ == b@),
{
    let x = chars_of(a);
    let y = chars_of(b);
    if x.len() != y.len() {
        return false;
    }
    let mut i: usize = 0;
    while i < x.len()
        invariant
            i <= x@.len() == y@.len(),
            x@ == a@,
            y@ == b@,
            x@.take(i as int) == y@.take(i as int),
        decreases x.len() - i,
    {
        if x[i] != y[i] {
            return false;
        }
        assert(x@.take(i + 1) =~= x@.take(i as int).push(x@[i as int]));
        assert(y@.take(i + 1) =~= y@.take(i as int).push(y@[i as int]));
        i += 1;
    }
    assert(x@ =~= x@.take(i as int) && y@ =~= y@.take(i as int));
    true
}

/// The lower-case form of an ASCII capital; any other character itself.
pub fn to_ascii_lower(c: char) -> (lower: char)
    ensures
        lower == ascii_lower(c),
{
    if 'A' <= c && c <= 'Z' {
        ((c as u8) + 32) as char
    } else {
        c
    }
}

/// Whether two strings are equal when ASCII capitals count as their
/// lower-case forms.
pub fn eq_ignore_ascii_case(a: &str, b: &str) -> (same: bool)
    ensures
        same == same_ignoring_ascii_case(a@, b@),
{
    let x = chars_of(a);
    let y = chars_of(b);
    if x.len() != y.len() {
        return false;
    }
    let mut i: usize = 0;
    while i < x.len()
        invariant
            i <= x@.len() == y@.len(),
            x@ == a@,
            y@ == b@,
            forall|k: int| 0 <= k < i ==> ascii_lower(x@[k]) == ascii_lower(#[trigger] y@[k]),
        decreases x.len() - i,
    {
        if to_ascii_lower(x[i]) != to_ascii_lower(y[i]) {
            assert(ascii_lower(a@[i as int]) != ascii_lower(b@[i as int]));
            return false;
        }
        i += 1;
    }
    true
}

/// Calls `str::to_lowercase`. The result is the lower-case form of the text
/// by the Unicode case mappings, which depends on the text alone; the contract
/// gives it the name [`lowercase`] and says nothing more of it.
#[verifier::external_body]
pub(crate) fn to_lowercase(text: &str) -> (lowered: String)
    ensures
        lowered@ == lowercase(text@),
{
    text.to_lowercase()
}

} // verus!
