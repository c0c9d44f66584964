//! Text as sequences of characters: searching, trimming, splitting, and decimal numbers.

use vstd::prelude::*;

verus! {

// ---------------------------------------------------------------------------
// Searching
// ---------------------------------------------------------------------------

/// The position of the first element of `s` for which `p` holds, or the length of `s`.
pub open spec fn first_where(s: Seq<char>, p: spec_fn(char) -> bool) -> nat
    decreases s.len(),
{
    if s.len() == 0 || p(s[0]) {
        0
    } else {
        1 + first_where(s.drop_first(), p)
    }
}

/// The position of the last element of `s` for which `p` holds, or `-1`.
pub open spec fn last_where(s: Seq<char>, p: spec_fn(char) -> bool) -> int
    decreases s.len(),
{
    if s.len() == 0 {
        -1
    } else if p(s.last()) {
        s.len() - 1
    } else {
        last_where(s.drop_last(), p)
    }
}

/// The position at which `pattern` first occurs in `s`.
pub open spec fn find(s: Seq<char>, pattern: Seq<char>) -> Option<nat>
    decreases s.len(),
{
    if pattern.is_prefix_of(s) {
        Some(0)
    } else if s.len() == 0 {
        None
    } else {
        match find(s.drop_first(), pattern) {
            Some(i) => Some(i + 1),
            None => None,
        }
    }
}

/// Being the character `c`.
pub open spec fn equals(c: char) -> spec_fn(char) -> bool {
    |x: char| x == c
}

/// The position of the first `c` in `s`, or the length of `s`.
pub open spec fn first_of(s: Seq<char>, c: char) -> nat {
    first_where(s, equals(c))
}

/// The position of the last `c` in `s`, or `-1`.
pub open spec fn last_of(s: Seq<char>, c: char) -> int {
    last_where(s, equals(c))
}

/// The part of `s` before the first `c`, or all of `s`.
pub open spec fn before_char(s: Seq<char>, c: char) -> Seq<char> {
    s.take(first_of(s, c) as int)
}

/// `i` is what [`first_where`] finds when nothing before it satisfies `p` and it does.
pub proof fn lemma_first_where(s: Seq<char>, p: spec_fn(char) -> bool, i: int)
    requires
        0 <= i <= s.len(),
        forall|j: int| 0 <= j < i ==> !p(#[trigger] s[j]),
        i == s.len() || p(s[i]),
    ensures
        first_where(s, p) == i,
    decreases i,
{
    if i > 0 {
        assert(!p(s[0]));
        assert forall|j: int| 0 <= j < i - 1 implies !p(#[trigger] s.drop_first()[j]) by {
            assert(s.drop_first()[j] == s[j + 1]);
        }
        lemma_first_where(s.drop_first(), p, i - 1);
    }
}

/// What [`first_where`] finds lies within the text, satisfies `p`, and is the first to do so.
pub proof fn lemma_first_where_holds(s: Seq<char>, p: spec_fn(char) -> bool)
    ensures
        first_where(s, p) <= s.len(),
        first_where(s, p) < s.len() ==> p(s[first_where(s, p) as int]),
        forall|j: int| 0 <= j < first_where(s, p) ==> !p(#[trigger] s[j]),
    decreases s.len(),
{
    if s.len() != 0 && !p(s[0]) {
        let rest = s.drop_first();
        lemma_first_where_holds(rest, p);
        assert forall|j: int| 0 <= j < first_where(s, p) implies !p(#[trigger] s[j]) by {
            if j > 0 {
                assert(rest[j - 1] == s[j]);
            }
        }
    }
}

/// `i` is what [`last_where`] finds when it satisfies `p` and nothing after it does.
pub proof fn lemma_last_where(s: Seq<char>, p: spec_fn(char) -> bool, i: int)
    requires
        -1 <= i < s.len(),
        forall|j: int| i < j < s.len() ==> !p(#[trigger] s[j]),
        i == -1 || p(s[i]),
    ensures
        last_where(s, p) == i,
    decreases s.len(),
{
    if s.len() > 0 && i < s.len() - 1 {
        assert(!p(s[s.len() - 1]));
        assert forall|j: int| i < j < s.len() - 1 implies !p(#[trigger] s.drop_last()[j]) by {
            assert(s.drop_last()[j] == s[j]);
        }
        lemma_last_where(s.drop_last(), p, i);
    }
}

/// `i` is what [`find`] gives when the pattern starts there and nowhere before.
pub proof fn lemma_find(s: Seq<char>, pattern: Seq<char>, i: int)
    requires
        0 <= i <= s.len(),
        pattern.is_prefix_of(s.skip(i)),
        forall|j: int| 0 <= j < i ==> !pattern.is_prefix_of(#[trigger] s.skip(j)),
    ensures
        find(s, pattern) == Some(i as nat),
    decreases i,
{
    assert(s.skip(0) == s);
    if i > 0 {
        assert(!pattern.is_prefix_of(s.skip(0)));
        let rest = s.drop_first();
        assert(rest.skip(i - 1) == s.skip(i));
        assert forall|j: int| 0 <= j < i - 1 implies !pattern.is_prefix_of(
            #[trigger] rest.skip(j),
        ) by {
            assert(rest.skip(j) == s.skip(j + 1));
        }
        lemma_find(rest, pattern, i - 1);
    }
}

/// [`find`] gives nothing when the pattern starts nowhere.
pub proof fn lemma_find_none(s: Seq<char>, pattern: Seq<char>)
    requires
        forall|j: int| 0 <= j <= s.len() ==> !pattern.is_prefix_of(#[trigger] s.skip(j)),
    ensures
        find(s, pattern) is None,
    decreases s.len(),
{
    assert(s.skip(0) == s);
    if s.len() > 0 {
        let rest = s.drop_first();
        assert forall|j: int| 0 <= j <= rest.len() implies !pattern.is_prefix_of(
            #[trigger] rest.skip(j),
        ) by {
            assert(rest.skip(j) == s.skip(j + 1));
        }
        lemma_find_none(rest, pattern);
    }
}

/// Where [`find`] finds the pattern, it stands.
pub proof fn lemma_find_fits(s: Seq<char>, pattern: Seq<char>)
    ensures
        find(s, pattern) matches Some(i) ==> {
            &&& i + pattern.len() <= s.len()
            &&& pattern.is_prefix_of(s.skip(i as int))
        },
    decreases s.len(),
{
    assert(s.skip(0) =~= s);
    if !pattern.is_prefix_of(s) && s.len() > 0 {
        let rest = s.drop_first();
        lemma_find_fits(rest, pattern);
        if let Some(i) = find(rest, pattern) {
            assert(rest.skip(i as int) =~= s.skip((i + 1) as int));
        }
    }
}

/// The texts of strings, in order.
pub open spec fn texts(strings: Seq<String>) -> Seq<Seq<char>> {
    strings.map_values(|s: String| s@)
}

/// The characters of `s`, in order.
pub fn chars_of(s: &str) -> (v: Vec<char>)
    ensures
        v@ == s@,
{
    let mut v: Vec<char> = Vec::new();
    for c in it: s.chars()
        invariant
            it.seq() == s@,
            v@ == s@.take(it.index() as int),
    {
        v.push(c);
    }
    assert(s@.take(s@.len() as int) == s@);
    v
}

/// The text made of the characters of `s` from position `from` up to position `to`.
pub fn slice_text(s: &str, from: usize, to: usize) -> (r: String)
    requires
        from <= to <= s@.len(),
    ensures
        r@ == s@.subrange(from as int, to as int),
{
    s.substring_char(from, to).to_owned()
}

/// Whether the two texts are the same.
pub fn same_text(a: &str, b: &str) -> (r: bool)
    ensures
        r == (a@ == b@),
{
    a.to_owned() == b.to_owned()
}

/// Where the first `c` stands in `v` from position `from` on, or the end of `v`.
pub fn index_of(v: &Vec<char>, from: usize, c: char) -> (r: usize)
    requires
        from <= v@.len(),
    ensures
        from <= r <= v@.len(),
        r - from == first_of(v@.skip(from as int), c),
{
    let ghost p = equals(c);
    let ghost tail = v@.skip(from as int);
    let mut i: usize = from;
    while i < v.len() && v[i] != c
        invariant
            from <= i <= v@.len(),
            tail == v@.skip(from as int),
            p == equals(c),
            forall|j: int| 0 <= j < i - from ==> !p(#[trigger] tail[j]),
        decreases v@.len() - i,
    {
        assert(tail[i - from] == v@[i as int]);
        i = i + 1;
    }
    proof {
        if i < v@.len() {
            assert(tail[i - from] == v@[i as int]);
        }
        lemma_first_where(tail, p, i - from);
    }
    i
}

/// Where the last `c` stands in `v` between the positions `from` and `to`, if anywhere.
pub fn last_index_of(v: &Vec<char>, from: usize, to: usize, c: char) -> (r: Option<usize>)
    requires
        from <= to <= v@.len(),
    ensures
        match r {
            Some(i) => from <= i < to && i - from == last_of(
                v@.subrange(from as int, to as int),
                c,
            ),
            None => last_of(v@.subrange(from as int, to as int), c) == -1,
        },
{
    let ghost p = equals(c);
    let ghost part = v@.subrange(from as int, to as int);
    let mut end: usize = to;
    while from < end
        invariant
            from <= end <= to,
            to <= v@.len(),
            part == v@.subrange(from as int, to as int),
            p == equals(c),
            forall|j: int| end - from <= j < part.len() ==> !p(#[trigger] part[j]),
        decreases end,
    {
        assert(part[end - 1 - from] == v@[end - 1]);
        if v[end - 1] == c {
            proof {
                lemma_last_where(part, p, end - 1 - from);
            }
            return Some(end - 1);
        }
        end = end - 1;
    }
    proof {
        lemma_last_where(part, p, -1);
    }
    None
}

/// Whether `pattern` stands in `v` at position `at`.
pub fn starts_at(v: &Vec<char>, at: usize, pattern: &Vec<char>) -> (r: bool)
    requires
        at <= v@.len(),
    ensures
        r == pattern@.is_prefix_of(v@.skip(at as int)),
{
    let ghost tail = v@.skip(at as int);
    if v.len() - at < pattern.len() {
        return false;
    }
    let mut i: usize = 0;
    while i < pattern.len()
        invariant
            at + pattern@.len() <= v.len(),
            i <= pattern@.len(),
            tail == v@.skip(at as int),
            forall|j: int| 0 <= j < i ==> pattern@[j] == #[trigger] tail[j],
        decreases pattern@.len() - i,
    {
        assert(tail[i as int] == v@[at + i]);
        if v[at + i] != pattern[i] {
            assert(tail.subrange(0, pattern@.len() as int)[i as int] != pattern@[i as int]);
            return false;
        }
        i = i + 1;
    }
    assert(tail.subrange(0, pattern@.len() as int) =~= pattern@);
    true
}

/// Where `pattern` first stands in `v`, if anywhere.
pub fn find_text(v: &Vec<char>, pattern: &Vec<char>) -> (r: Option<usize>)
    ensures
        match r {
            Some(i) => i <= v@.len() && find(v@, pattern@) == Some(i as nat),
            None => find(v@, pattern@) is None,
        },
{
    let mut i: usize = 0;
    loop
        invariant
            i <= v@.len(),
            forall|j: int| 0 <= j < i ==> !pattern@.is_prefix_of(#[trigger] v@.skip(j)),
        decreases v@.len() - i,
    {
        if starts_at(v, i, pattern) {
            proof {
                lemma_find(v@, pattern@, i as int);
            }
            return Some(i);
        }
        if i == v.len() {
            proof {
                lemma_find_none(v@, pattern@);
            }
            return None;
        }
        i = i + 1;
    }
}

// ---------------------------------------------------------------------------
// UTF-8
// ---------------------------------------------------------------------------

/// The text that `bytes` encode, or no text where they are not UTF-8.
pub open spec fn text_or_empty(bytes: Seq<u8>) -> Seq<char> {
    if vstd::utf8::valid_utf8(bytes) {
        vstd::utf8::decode_utf8(bytes)
    } else {
        Seq::empty()
    }
}

/// `String::from_utf8`, without what its error holds: a text where the bytes are UTF-8, and then
/// the text that they encode.
#[verifier::external_body]
pub(crate) fn utf8_text(bytes: Vec<u8>) -> (r: Option<String>)
    ensures
        match r {
            Some(s) => vstd::utf8::valid_utf8(bytes@) && s@ == vstd::utf8::decode_utf8(bytes@),
            None => !vstd::utf8::valid_utf8(bytes@),
        },
{
    String::from_utf8(bytes).ok()
}

/// A text written as UTF-8 is read back.
pub proof fn law_utf8_reads_back(s: Seq<char>)
    ensures
        vstd::utf8::valid_utf8(vstd::utf8::encode_utf8(s)),
        text_or_empty(vstd::utf8::encode_utf8(s)) == s,
{
    vstd::utf8::encode_utf8_valid_utf8(s);
    vstd::utf8::encode_utf8_decode_utf8(s);
}

// ---------------------------------------------------------------------------
// White space
// ---------------------------------------------------------------------------

/// The characters with the Unicode property White_Space.
pub open spec fn is_white_space(c: char) -> bool {
    ||| '\u{9}' <= c <= '\u{d}'
    ||| c == ' '
    ||| c == '\u{85}'
    ||| c == '\u{a0}'
    ||| c == '\u{1680}'
    ||| '\u{2000}' <= c <= '\u{200a}'
    ||| c == '\u{2028}'
    ||| c == '\u{2029}'
    ||| c == '\u{202f}'
    ||| c == '\u{205f}'
    ||| c == '\u{3000}'
}

/// `s` without the white space at its start.
pub open spec fn trim_start(s: Seq<char>) -> Seq<char> {
    s.skip(first_where(s, |c: char| !is_white_space(c)) as int)
}

/// `s` without the white space at its end.
pub open spec fn trim_end(s: Seq<char>) -> Seq<char> {
    s.take(last_where(s, |c: char| !is_white_space(c)) + 1)
}

/// `s` without the white space at both ends.
pub open spec fn trim(s: Seq<char>) -> Seq<char> {
    trim_end(trim_start(s))
}

/// The maximal runs of `s` that hold no white space, in order.
pub open spec fn words(s: Seq<char>) -> Seq<Seq<char>>
    decreases s.len(),
    via words_decreases
{
    let t = trim_start(s);
    let n = first_where(t, |c: char| is_white_space(c)) as int;
    if t.len() == 0 {
        Seq::empty()
    } else {
        seq![t.take(n)] + words(t.skip(n))
    }
}

#[via_fn]
proof fn words_decreases(s: Seq<char>) {
    let p = |c: char| !is_white_space(c);
    let q = |c: char| is_white_space(c);
    lemma_first_where_holds(s, p);
    let t = trim_start(s);
    lemma_first_where_holds(t, q);
    if t.len() > 0 {
        assert(t[0] == s[first_where(s, p) as int]);
        assert(p(t[0]));
        assert(!q(t[0]));
    }
}

/// Whether `s` holds a character, and no white space.
pub open spec fn is_word(s: Seq<char>) -> bool {
    s.len() > 0 && forall|i: int| 0 <= i < s.len() ==> !is_white_space(#[trigger] s[i])
}

/// A word that is followed by white space, or by nothing, is the first of the words.
pub proof fn lemma_first_word(word: Seq<char>, rest: Seq<char>)
    requires
        is_word(word),
        rest.len() == 0 || is_white_space(rest[0]),
    ensures
        words(word + rest) == seq![word] + words(rest),
{
    let s = word + rest;
    let p = |c: char| is_white_space(c);
    let q = |c: char| !is_white_space(c);
    assert(s[0] == word[0]);
    assert(q(s[0]));
    lemma_first_where(s, q, 0);
    assert(s.skip(0) =~= s);
    assert forall|j: int| 0 <= j < word.len() implies !p(#[trigger] s[j]) by {
        assert(s[j] == word[j]);
    }
    if rest.len() > 0 {
        assert(s[word.len() as int] == rest[0]);
        assert(p(rest[0]));
    }
    lemma_first_where(s, p, word.len() as int);
    assert(s.take(word.len() as int) =~= word);
    assert(s.skip(word.len() as int) =~= rest);
}

/// White space before a text does not change its words.
pub proof fn lemma_space_before_words(c: char, s: Seq<char>)
    requires
        is_white_space(c),
    ensures
        words(seq![c] + s) == words(s),
{
    let t = seq![c] + s;
    let q = |c: char| !is_white_space(c);
    lemma_first_where_holds(s, q);
    let n = first_where(s, q) as int;
    assert forall|j: int| 0 <= j < n + 1 implies !q(#[trigger] t[j]) by {
        if j > 0 {
            assert(t[j] == s[j - 1]);
        }
    }
    if n < s.len() {
        assert(t[n + 1] == s[n]);
    }
    lemma_first_where(t, q, n + 1);
    assert(trim_start(t) =~= trim_start(s));
}

/// Whether `c` is white space.
pub fn white_space(c: char) -> (r: bool)
    ensures
        r == is_white_space(c),
{
    ('\u{9}' <= c && c <= '\u{d}') || c == ' ' || c == '\u{85}' || c == '\u{a0}' || c == '\u{1680}'
        || ('\u{2000}' <= c && c <= '\u{200a}') || c == '\u{2028}' || c == '\u{2029}' || c
        == '\u{202f}' || c == '\u{205f}' || c == '\u{3000}'
}

/// The first position from `from` on that holds white space (`wanted`) or holds none
/// (not `wanted`), or the end of `v`.
fn space_boundary(v: &Vec<char>, from: usize, wanted: bool) -> (r: usize)
    requires
        from <= v@.len(),
    ensures
        from <= r <= v@.len(),
        wanted ==> r - from == first_where(v@.skip(from as int), |c: char| is_white_space(c)),
        !wanted ==> r - from == first_where(v@.skip(from as int), |c: char| !is_white_space(c)),
{
    let ghost p = |c: char| is_white_space(c);
    let ghost q = |c: char| !is_white_space(c);
    let ghost tail = v@.skip(from as int);
    let mut i: usize = from;
    while i < v.len() && white_space(v[i]) != wanted
        invariant
            from <= i <= v@.len(),
            tail == v@.skip(from as int),
            p == (|c: char| is_white_space(c)),
            q == (|c: char| !is_white_space(c)),
            forall|j: int|
                0 <= j < i - from ==> is_white_space(#[trigger] tail[j]) != wanted,
        decreases v@.len() - i,
    {
        assert(tail[i - from] == v@[i as int]);
        i = i + 1;
    }
    proof {
        if i < v@.len() {
            assert(tail[i - from] == v@[i as int]);
        }
        if wanted {
            lemma_first_where(tail, p, i - from);
        } else {
            lemma_first_where(tail, q, i - from);
        }
    }
    i
}

/// `s` without the white space at both ends.
pub fn trimmed(s: &str) -> (r: String)
    ensures
        r@ == trim(s@),
{
    let v = chars_of(s);
    let from = space_boundary(&v, 0, false);
    assert(v@.skip(0) == v@);
    let ghost t = trim_start(s@);
    assert(t == v@.skip(from as int));
    let ghost q = |c: char| !is_white_space(c);
    let mut to: usize = v.len();
    while from < to && white_space(v[to - 1])
        invariant
            from <= to <= v@.len(),
            t == v@.skip(from as int),
            q == (|c: char| !is_white_space(c)),
            forall|j: int| to - from <= j < t.len() ==> !q(#[trigger] t[j]),
        decreases to,
    {
        assert(t[to - 1 - from] == v@[to - 1]);
        to = to - 1;
    }
    proof {
        if from < to {
            assert(t[to - 1 - from] == v@[to - 1]);
        }
        lemma_last_where(t, q, to - 1 - from);
        assert(t.take(to - from) == s@.subrange(from as int, to as int));
    }
    slice_text(s, from, to)
}

/// The maximal runs of `s` that hold no white space, in order.
pub fn split_words(s: &str) -> (r: Vec<String>)
    ensures
        r@.len() == words(s@).len(),
        forall|i: int| 0 <= i < r@.len() ==> (#[trigger] r@[i])@ == words(s@)[i],
{
    let v = chars_of(s);
    let mut out: Vec<String> = Vec::new();
    let mut at: usize = 0;
    assert(v@.skip(0) == v@);
    loop
        invariant
            at <= v@.len(),
            v@ == s@,
            words(s@).len() == out@.len() + words(v@.skip(at as int)).len(),
            forall|i: int| 0 <= i < out@.len() ==> (#[trigger] out@[i])@ == words(s@)[i],
            forall|i: int|
                0 <= i < words(v@.skip(at as int)).len() ==> #[trigger] words(v@.skip(at as int))[i]
                    == words(s@)[out@.len() + i],
        decreases v@.len() - at,
    {
        let ghost here = v@.skip(at as int);
        let ghost q = |c: char| !is_white_space(c);
        let ghost p = |c: char| is_white_space(c);
        let start = space_boundary(&v, at, false);
        let ghost t = trim_start(here);
        assert(t == v@.skip(start as int));
        if start == v.len() {
            return out;
        }
        let end = space_boundary(&v, start, true);
        proof {
            lemma_first_where_holds(here, q);
            assert(t[0] == here[start - at]);
            assert(q(t[0]));
            assert(!p(t[0]));
            assert(end > start);
            assert(t.take(end - start) == s@.subrange(start as int, end as int));
            assert(t.skip(end - start) == v@.skip(end as int));
            assert(words(here) == seq![t.take(end - start)] + words(v@.skip(end as int)));
            assert(words(here)[0] == t.take(end - start));
            assert forall|i: int| 0 <= i < words(v@.skip(end as int)).len() implies #[trigger] words(
                v@.skip(end as int),
            )[i] == words(s@)[out@.len() + 1 + i] by {
                assert(words(here)[i + 1] == words(v@.skip(end as int))[i]);
            }
        }
        out.push(slice_text(s, start, end));
        at = end;
    }
}

// ---------------------------------------------------------------------------
// Prefixes and suffixes
// ---------------------------------------------------------------------------

/// `s` after every repetition of `prefix` at its start has been removed.
pub open spec fn strip_all(s: Seq<char>, prefix: Seq<char>) -> Seq<char>
    decreases s.len(),
{
    if prefix.len() > 0 && prefix.is_prefix_of(s) {
        strip_all(s.skip(prefix.len() as int), prefix)
    } else {
        s
    }
}

/// `s` after every repetition of `suffix` at its end has been removed.
pub open spec fn strip_all_end(s: Seq<char>, suffix: Seq<char>) -> Seq<char>
    decreases s.len(),
{
    if suffix.len() > 0 && suffix.is_suffix_of(s) {
        strip_all_end(s.take(s.len() - suffix.len()), suffix)
    } else {
        s
    }
}

/// Where `v` goes on after the repetitions of `prefix` that stand at position `from`.
pub fn skip_all(v: &Vec<char>, from: usize, prefix: &Vec<char>) -> (r: usize)
    requires
        from <= v@.len(),
    ensures
        from <= r <= v@.len(),
        v@.skip(r as int) == strip_all(v@.skip(from as int), prefix@),
{
    if prefix.len() == 0 {
        return from;
    }
    let mut at: usize = from;
    while starts_at(v, at, prefix)
        invariant
            from <= at <= v@.len(),
            prefix@.len() > 0,
            strip_all(v@.skip(at as int), prefix@) == strip_all(v@.skip(from as int), prefix@),
        decreases v@.len() - at,
    {
        assert(v@.skip(at as int).skip(prefix@.len() as int) == v@.skip(at + prefix@.len()));
        assert(at + prefix@.len() <= v.len());
        at = at + prefix.len();
    }
    at
}

/// `s` after every repetition of `suffix` at its end has been removed.
pub fn trimmed_end_matches(s: &str, suffix: &str) -> (r: String)
    ensures
        r@ == strip_all_end(s@, suffix@),
{
    let v = chars_of(s);
    let p = chars_of(suffix);
    let mut to: usize = v.len();
    assert(v@.take(v@.len() as int) == s@);
    if p.len() > 0 {
        loop
            invariant_except_break
                to <= v@.len(),
                p@.len() > 0,
                strip_all_end(v@.take(to as int), p@) == strip_all_end(s@, p@),
            ensures
                to <= v@.len(),
                v@.take(to as int) == strip_all_end(s@, p@),
            decreases to,
        {
            let ghost head = v@.take(to as int);
            if to < p.len() {
                break;
            }
            let at: usize = to - p.len();
            let mut i: usize = 0;
            while i < p.len() && v[at + i] == p[i]
                invariant
                    i <= p@.len(),
                    at + p@.len() == to,
                    to <= v@.len(),
                    forall|j: int| 0 <= j < i ==> p@[j] == #[trigger] v@[at + j],
                decreases p@.len() - i,
            {
                i = i + 1;
            }
            let ghost end = head.subrange(at as int, to as int);
            if i < p.len() {
                assert(end[i as int] == v@[at + i]);
                assert(!p@.is_suffix_of(head));
                break;
            }
            assert forall|j: int| 0 <= j < end.len() implies end[j] == p@[j] by {
                assert(end[j] == v@[at + j]);
            }
            assert(end =~= p@);
            assert(p@.is_suffix_of(head));
            assert(head.take(at as int) == v@.take(at as int));
            to = at;
        }
    }
    proof {
        assert(s@.subrange(0, to as int) == v@.take(to as int));
    }
    slice_text(s, 0, to)
}

// ---------------------------------------------------------------------------
// ASCII case
// ---------------------------------------------------------------------------

/// `c` with an ASCII capital letter made small.
pub open spec fn ascii_lower(c: char) -> char {
    if 'A' <= c <= 'Z' {
        (c as u8 + 32) as char
    } else {
        c
    }
}

/// Whether two texts differ at most in the case of ASCII letters.
pub open spec fn same_ignoring_case(a: Seq<char>, b: Seq<char>) -> bool {
    a.map_values(|c: char| ascii_lower(c)) == b.map_values(|c: char| ascii_lower(c))
}

fn lower(c: char) -> (r: char)
    ensures
        r == ascii_lower(c),
{
    if 'A' <= c && c <= 'Z' {
        ((c as u8) + 32) as char
    } else {
        c
    }
}

/// Whether two texts differ at most in the case of ASCII letters.
pub fn eq_ignore_ascii_case(a: &str, b: &str) -> (r: bool)
    ensures
        r == same_ignoring_case(a@, b@),
{
    let x = chars_of(a);
    let y = chars_of(b);
    let ghost f = |c: char| ascii_lower(c);
    let ghost la = a@.map_values(f);
    let ghost lb = b@.map_values(f);
    if x.len() != y.len() {
        assert(la.len() != lb.len());
        return false;
    }
    let mut i: usize = 0;
    while i < x.len()
        invariant
            i <= x@.len(),
            x@.len() == y@.len(),
            x@ == a@,
            y@ == b@,
            f == (|c: char| ascii_lower(c)),
            la == a@.map_values(f),
            lb == b@.map_values(f),
            forall|j: int| 0 <= j < i ==> #[trigger] la[j] == lb[j],
        decreases x@.len() - i,
    {
        if lower(x[i]) != lower(y[i]) {
            assert(la[i as int] != lb[i as int]);
            return false;
        }
        i = i + 1;
    }
    assert(la =~= lb);
    true
}

// ---------------------------------------------------------------------------
// Decimal numbers
// ---------------------------------------------------------------------------

/// The decimal digit `d`.
pub open spec fn digit_char(d: nat) -> char {
    (48 + d) as char
}

/// `n` in decimal, without leading zeros.
pub open spec fn decimal(n: nat) -> Seq<char>
    decreases n,
{
    if n < 10 {
        seq![digit_char(n)]
    } else {
        decimal(n / 10).push(digit_char(n % 10))
    }
}

/// Whether `c` is a decimal digit.
pub open spec fn is_digit(c: char) -> bool {
    '0' <= c <= '9'
}

/// Whether `s` is a non-empty run of decimal digits.
pub open spec fn all_digits(s: Seq<char>) -> bool {
    s.len() > 0 && forall|i: int| 0 <= i < s.len() ==> is_digit(#[trigger] s[i])
}

/// The number that the digits of `s` denote.
pub open spec fn digits_value(s: Seq<char>) -> nat
    decreases s.len(),
{
    if s.len() == 0 {
        0
    } else {
        (digits_value(s.drop_last()) * 10 + (s.last() as int - 48)) as nat
    }
}

/// The unsigned number that `s` denotes: decimal digits, after at most one plus sign,
/// with a value of at most `max`.
pub open spec fn unsigned_value(s: Seq<char>, max: nat) -> Option<nat> {
    let digits = if s.len() > 0 && s[0] == '+' {
        s.drop_first()
    } else {
        s
    };
    if all_digits(digits) && digits_value(digits) <= max {
        Some(digits_value(digits))
    } else {
        None
    }
}

/// More digits never make a number smaller.
proof fn lemma_digits_value_grows(s: Seq<char>, i: int)
    requires
        all_digits(s),
        0 <= i <= s.len(),
    ensures
        digits_value(s.take(i)) <= digits_value(s),
    decreases s.len() - i,
{
    if i < s.len() {
        let next = s.take(i + 1);
        assert(next.drop_last() == s.take(i));
        assert(next.last() == s[i]);
        assert(is_digit(s[i]));
        assert(digits_value(next) == digits_value(s.take(i)) * 10 + (s[i] as int - 48));
        lemma_digits_value_grows(s, i + 1);
    } else {
        assert(s.take(i) == s);
    }
}

/// The digits of a number in decimal denote that number, and there is no leading zero but in
/// zero itself.
pub proof fn lemma_decimal(n: nat)
    ensures
        all_digits(decimal(n)),
        digits_value(decimal(n)) == n,
        decimal(n).len() > 1 ==> decimal(n)[0] != '0',
        decimal(n)[0] != '+',
    decreases n,
{
    if n < 10 {
        let s = decimal(n);
        assert(s.drop_last() == Seq::<char>::empty());
        assert(digits_value(s.drop_last()) == 0);
        assert(s.last() == digit_char(n));
        assert(digit_char(n) as int == 48 + n);
    } else {
        lemma_decimal(n / 10);
        let head = decimal(n / 10);
        let s = decimal(n);
        assert(s.drop_last() == head);
        assert(s.last() == digit_char(n % 10));
        assert(digit_char(n % 10) as int == 48 + n % 10);
        assert forall|i: int| 0 <= i < s.len() implies is_digit(#[trigger] s[i]) by {
            if i < head.len() {
                assert(s[i] == head[i]);
            }
        }
        assert(s[0] == head[0]);
        if head.len() == 1 && head[0] == '0' {
            assert(head.drop_last() == Seq::<char>::empty());
            assert(digits_value(head.drop_last()) == 0);
            assert(digits_value(head) == 0);
            assert(false);
        }
    }
}

/// Reading back a number written in decimal gives that number, whatever limit it respects.
pub proof fn law_decimal_reads_back(n: nat, max: nat)
    requires
        n <= max,
    ensures
        unsigned_value(decimal(n), max) == Some(n),
{
    lemma_decimal(n);
}

fn digit_text(d: u64) -> (r: &'static str)
    requires
        d < 10,
    ensures
        r@ == seq![digit_char(d as nat)],
{
    proof {
        reveal_strlit("0");
        reveal_strlit("1");
        reveal_strlit("2");
        reveal_strlit("3");
        reveal_strlit("4");
        reveal_strlit("5");
        reveal_strlit("6");
        reveal_strlit("7");
        reveal_strlit("8");
        reveal_strlit("9");
    }
    if d == 0 {
        "0"
    } else if d == 1 {
        "1"
    } else if d == 2 {
        "2"
    } else if d == 3 {
        "3"
    } else if d == 4 {
        "4"
    } else if d == 5 {
        "5"
    } else if d == 6 {
        "6"
    } else if d == 7 {
        "7"
    } else if d == 8 {
        "8"
    } else {
        "9"
    }
}

/// `n` in decimal.
pub fn decimal_text(n: u64) -> (r: String)
    ensures
        r@ == decimal(n as nat),
    decreases n,
{
    if n < 10 {
        digit_text(n).to_owned()
    } else {
        let mut s = decimal_text(n / 10);
        s.append(digit_text(n % 10));
        s
    }
}

/// A host and a port, as the two are written together.
pub open spec fn with_port(host: Seq<char>, port: u16) -> Seq<char> {
    host + seq![':'] + decimal(port as nat)
}

/// The text that [`with_port`] describes.
pub fn join_port(host: &str, port: u16) -> (r: String)
    ensures
        r@ == with_port(host@, port),
{
    proof {
        reveal_strlit(":");
    }
    let mut s = host.to_owned();
    s.append(":");
    assert(":"@ =~= seq![':']);
    s.append(decimal_text(port as u64).as_str());
    s
}

/// The unsigned number of at most `max` that the characters of `v` between `from` and `to`
/// denote.
pub fn parse_unsigned(v: &Vec<char>, from: usize, to: usize, max: u64) -> (r: Option<u64>)
    requires
        from <= to <= v@.len(),
    ensures
        match r {
            Some(n) => unsigned_value(v@.subrange(from as int, to as int), max as nat) == Some(
                n as nat,
            ),
            None => unsigned_value(v@.subrange(from as int, to as int), max as nat) is None,
        },
{
    let ghost whole = v@.subrange(from as int, to as int);
    let mut at: usize = from;
    if at < to && v[at] == '+' {
        at = at + 1;
    }
    let ghost digits = v@.subrange(at as int, to as int);
    assert(whole.len() > 0 && whole[0] == '+' ==> whole.drop_first() == digits);
    assert(!(whole.len() > 0 && whole[0] == '+') ==> whole == digits);
    if at == to {
        return None;
    }
    let start: usize = at;
    let mut n: u64 = 0;
    assert(digits.take(0) == Seq::<char>::empty());
    while at < to
        invariant
            start <= at <= to,
            start < to,
            to <= v@.len(),
            whole == v@.subrange(from as int, to as int),
            digits == v@.subrange(start as int, to as int),
            unsigned_value(whole, max as nat) == if all_digits(digits) && digits_value(digits)
                <= max {
                Some(digits_value(digits))
            } else {
                None
            },
            n <= max,
            n == digits_value(digits.take(at - start)),
            forall|i: int| 0 <= i < at - start ==> is_digit(#[trigger] digits[i]),
        decreases to - at,
    {
        let c = v[at];
        assert(digits[at - start] == c);
        if c < '0' || '9' < c {
            return None;
        }
        let d: u64 = (c as u64) - 48;
        let ghost next = digits.take(at - start + 1);
        proof {
            assert(next.drop_last() == digits.take(at - start));
            assert(next.last() == c);
            assert(digits_value(next) == n * 10 + d);
            if all_digits(digits) {
                lemma_digits_value_grows(digits, at - start + 1);
            }
        }
        if d > max || n > (max - d) / 10 {
            return None;
        }
        n = n * 10 + d;
        at = at + 1;
    }
    assert(digits.take(to - start) == digits);
    Some(n)
}

// ---------------------------------------------------------------------------
// Laws
// ---------------------------------------------------------------------------

/// Whether all characters are white space.
pub open spec fn all_white_space(s: Seq<char>) -> bool {
    forall|i: int| 0 <= i < s.len() ==> is_white_space(#[trigger] s[i])
}

/// Trimming takes away the white space round a text, and nothing of the text itself.
pub proof fn law_trimming_leaves_the_text(before: Seq<char>, s: Seq<char>, after: Seq<char>)
    requires
        all_white_space(before),
        all_white_space(after),
        s.len() > 0 ==> !is_white_space(s[0]) && !is_white_space(s.last()),
    ensures
        trim(before + s + after) == s,
{
    let all = before + s + after;
    let q = |c: char| !is_white_space(c);
    if s.len() > 0 {
        assert forall|j: int| 0 <= j < before.len() implies !q(#[trigger] all[j]) by {
            assert(all[j] == before[j]);
        }
        assert(all[before.len() as int] == s[0]);
        lemma_first_where(all, q, before.len() as int);
        let t = s + after;
        assert(all.skip(before.len() as int) =~= t);
        assert forall|j: int| s.len() - 1 < j < t.len() implies !q(#[trigger] t[j]) by {
            assert(t[j] == after[j - s.len()]);
        }
        assert(t[s.len() - 1] == s.last());
        lemma_last_where(t, q, s.len() - 1);
        assert(t.take(s.len() as int) =~= s);
    } else {
        assert forall|j: int| 0 <= j < all.len() implies !q(#[trigger] all[j]) by {
            if j < before.len() {
                assert(all[j] == before[j]);
            } else {
                assert(all[j] == after[j - before.len()]);
            }
        }
        lemma_first_where(all, q, all.len() as int);
        let t = all.skip(all.len() as int);
        lemma_last_where(t, q, -1);
        assert(t.take(0) =~= s);
    }
}

/// A text without characters has no words; white space before a text adds none; a run without
/// white space is a word of its own, up to the next white space.
pub proof fn law_words_are_the_runs_between_white_space(c: char, word: Seq<char>, rest: Seq<char>)
    requires
        is_white_space(c),
        is_word(word),
        rest.len() == 0 || is_white_space(rest[0]),
    ensures
        words(Seq::<char>::empty()) == Seq::<Seq<char>>::empty(),
        words(seq![c] + rest) == words(rest),
        words(word + rest).len() == words(rest).len() + 1,
        words(word + rest)[0] == word,
        words(word + rest).drop_first() == words(rest),
{
    let none = Seq::<char>::empty();
    lemma_first_where_holds(none, |c: char| !is_white_space(c));
    assert(trim_start(none).len() == 0);
    lemma_space_before_words(c, rest);
    lemma_first_word(word, rest);
    assert((seq![word] + words(rest)).drop_first() =~= words(rest));
}

/// Every repetition of the prefix goes, one after the other, and nothing else.
pub proof fn law_stripping_takes_the_prefix_alone(s: Seq<char>, prefix: Seq<char>)
    requires
        prefix.len() > 0,
    ensures
        strip_all(prefix + s, prefix) == strip_all(s, prefix),
        !prefix.is_prefix_of(s) ==> strip_all(s, prefix) == s,
{
    assert((prefix + s).subrange(0, prefix.len() as int) =~= prefix);
    assert((prefix + s).skip(prefix.len() as int) =~= s);
}

/// Every repetition of the suffix goes, one after the other, and nothing else.
pub proof fn law_stripping_takes_the_suffix_alone(s: Seq<char>, suffix: Seq<char>)
    requires
        suffix.len() > 0,
    ensures
        strip_all_end(s + suffix, suffix) == strip_all_end(s, suffix),
        !suffix.is_suffix_of(s) ==> strip_all_end(s, suffix) == s,
{
    let all = s + suffix;
    assert(all.subrange(all.len() - suffix.len(), all.len() as int) =~= suffix);
    assert(all.take(all.len() - suffix.len()) =~= s);
}

/// Texts that are the same but for the case of ASCII letters have the same length, and at every
/// place the same character or the capital and the small form of one letter.
pub proof fn law_case_is_all_that_may_differ(a: Seq<char>, b: Seq<char>)
    ensures
        same_ignoring_case(a, b) <==> a.len() == b.len() && forall|i: int|
            0 <= i < a.len() ==> {
                ||| #[trigger] a[i] == b[i]
                ||| 'A' <= a[i] <= 'Z' && b[i] as int == a[i] as int + 32
                ||| 'A' <= b[i] <= 'Z' && a[i] as int == b[i] as int + 32
            },
{
    let f = |c: char| ascii_lower(c);
    let la = a.map_values(f);
    let lb = b.map_values(f);
    assert forall|c: char, d: char| #[trigger] ascii_lower(c) == #[trigger] ascii_lower(d) <==> (c
        == d || 'A' <= c <= 'Z' && d as int == c as int + 32 || 'A' <= d <= 'Z' && c as int
        == d as int + 32) by {
        if 'A' <= c <= 'Z' {
            assert(ascii_lower(c) as int == c as int + 32);
        }
        if 'A' <= d <= 'Z' {
            assert(ascii_lower(d) as int == d as int + 32);
        }
    }
    if same_ignoring_case(a, b) {
        assert(la.len() == lb.len());
        assert forall|i: int| 0 <= i < a.len() implies {
            ||| #[trigger] a[i] == b[i]
            ||| 'A' <= a[i] <= 'Z' && b[i] as int == a[i] as int + 32
            ||| 'A' <= b[i] <= 'Z' && a[i] as int == b[i] as int + 32
        } by {
            assert(la[i] == ascii_lower(a[i]));
            assert(lb[i] == ascii_lower(b[i]));
        }
    }
    if a.len() == b.len() && forall|i: int|
        0 <= i < a.len() ==> {
            ||| #[trigger] a[i] == b[i]
            ||| 'A' <= a[i] <= 'Z' && b[i] as int == a[i] as int + 32
            ||| 'A' <= b[i] <= 'Z' && a[i] as int == b[i] as int + 32
        } {
        assert forall|i: int| 0 <= i < la.len() implies la[i] == lb[i] by {
            assert(la[i] == ascii_lower(a[i]));
            assert(lb[i] == ascii_lower(b[i]));
            assert(a[i] == b[i] || 'A' <= a[i] <= 'Z' && b[i] as int == a[i] as int + 32 || 'A'
                <= b[i] <= 'Z' && a[i] as int == b[i] as int + 32);
        }
        assert(la =~= lb);
    }
}

/// One more digit makes a number ten times as large, and adds the digit.
pub proof fn law_digits_count_in_tens(s: Seq<char>, c: char)
    requires
        '0' <= c <= '9',
    ensures
        digits_value(Seq::<char>::empty()) == 0,
        digits_value(s.push(c)) == 10 * digits_value(s) + (c as int - '0' as int),
{
    assert(s.push(c).drop_last() =~= s);
    assert(s.push(c).last() == c);
}

/// A text denotes a number exactly where it is made of digits, at least one, and the number is
/// within the limit; one plus sign before it makes no difference.
pub proof fn law_only_digits_denote_a_number(s: Seq<char>, max: nat)
    requires
        s.len() > 0 ==> s[0] != '+',
    ensures
        unsigned_value(s, max) is Some <==> {
            &&& s.len() > 0
            &&& forall|i: int| 0 <= i < s.len() ==> '0' <= #[trigger] s[i] <= '9'
            &&& digits_value(s) <= max
        },
        unsigned_value(s, max) matches Some(n) ==> n == digits_value(s),
        unsigned_value(seq!['+'] + s, max) == unsigned_value(s, max),
        unsigned_value(seq!['+', '+'] + s, max) is None,
{
    assert((seq!['+'] + s).drop_first() =~= s);
    let two = (seq!['+', '+'] + s).drop_first();
    assert(two[0] == '+');
    assert(!is_digit(two[0]));
    if s.len() > 0 && forall|i: int| 0 <= i < s.len() ==> '0' <= #[trigger] s[i] <= '9' {
        assert forall|i: int| 0 <= i < s.len() implies is_digit(#[trigger] s[i]) by {}
    }
    if unsigned_value(s, max) is Some {
        assert forall|i: int| 0 <= i < s.len() implies '0' <= #[trigger] s[i] <= '9' by {
            assert(is_digit(s[i]));
        }
    }
}

/// A host and a port are written as the host, a colon and the port, and nothing else: the digits
/// behind the colon denote the port.
pub proof fn law_port_stands_behind_the_host(host: Seq<char>, port: u16)
    ensures
        host.is_prefix_of(with_port(host, port)),
        with_port(host, port).len() > host.len() + 1,
        with_port(host, port)[host.len() as int] == ':',
        all_digits(with_port(host, port).skip((host.len() + 1) as int)),
        digits_value(with_port(host, port).skip((host.len() + 1) as int)) == port,
        with_port(host, port).len() > host.len() + 2 ==> with_port(host, port)[(host.len()
            + 1) as int] != '0',
{
    lemma_decimal(port as nat);
    let all = with_port(host, port);
    assert(all.subrange(0, host.len() as int) =~= host);
    assert(all.skip((host.len() + 1) as int) =~= decimal(port as nat));
}

/// Bytes that are no UTF-8 count as no text.
pub proof fn law_no_text_from_other_bytes(bytes: Seq<u8>)
    requires
        !vstd::utf8::valid_utf8(bytes),
    ensures
        text_or_empty(bytes).len() == 0,
{
}

/// White space is what has one of these twenty-five code points.
pub proof fn law_white_space_by_code_point(c: char)
    ensures
        is_white_space(c) <==> seq![
            9u32,
            10,
            11,
            12,
            13,
            32,
            133,
            160,
            5760,
            8192,
            8193,
            8194,
            8195,
            8196,
            8197,
            8198,
            8199,
            8200,
            8201,
            8202,
            8232,
            8233,
            8239,
            8287,
            12288,
        ].contains(c as u32),
{
    let codes = seq![
        9u32,
        10,
        11,
        12,
        13,
        32,
        133,
        160,
        5760,
        8192,
        8193,
        8194,
        8195,
        8196,
        8197,
        8198,
        8199,
        8200,
        8201,
        8202,
        8232,
        8233,
        8239,
        8287,
        12288,
    ];
    let n = c as u32;
    assert(codes.len() == 25);
    if 9 <= n <= 13 {
        assert(codes[n - 9] == n);
    }
    if 8192 <= n <= 8202 {
        assert(codes[n - 8183] == n);
    }
    assert(codes[5] == 32 && codes[6] == 133 && codes[7] == 160 && codes[8] == 5760);
    assert(codes[20] == 8232 && codes[21] == 8233 && codes[22] == 8239);
    assert(codes[23] == 8287 && codes[24] == 12288);
    if codes.contains(n) {
        let i = choose|i: int| 0 <= i < codes.len() && codes[i] == n;
        assert(is_white_space(c));
    }
}

/// Strings stand for their texts, one for one and in order.
pub proof fn law_texts_are_in_order(strings: Seq<String>, i: int)
    ensures
        texts(strings).len() == strings.len(),
        0 <= i < strings.len() ==> texts(strings)[i] == strings[i]@,
{
}

/// A number is written in digits that denote it, and no zero comes first unless it stands alone.
pub proof fn law_number_is_written_in_few_digits(n: nat)
    ensures
        decimal(n).len() > 0,
        forall|i: int| 0 <= i < decimal(n).len() ==> '0' <= #[trigger] decimal(n)[i] <= '9',
        digits_value(decimal(n)) == n,
        decimal(n).len() > 1 ==> decimal(n)[0] != '0',
{
    lemma_decimal(n);
    assert forall|i: int| 0 <= i < decimal(n).len() implies '0' <= #[trigger] decimal(n)[i]
        <= '9' by {
        assert(is_digit(decimal(n)[i]));
    }
}

} // verus!
