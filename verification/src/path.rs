//! Normalization of the path strings that the file commands receive.
//!
//! Some invocation mechanisms hand a path over wrapped in double quotes.
//! Normalization removes the quote characters that bound the string and
//! touches nothing else: no escaping, no unescaping.

use vstd::prelude::*;
use vstd::string::*;

verus! {

/// The character that normalization removes from the two ends of a path.
pub open spec fn quote() -> char {
    '"'
}

/// `s` without the quotes it starts with.
pub open spec fn strip_leading(s: Seq<char>) -> Seq<char>
    decreases s.len(),
{
    if s.len() > 0 && s.first() == quote() {
        strip_leading(s.drop_first())
    } else {
        s
    }
}

/// `s` without the quotes it ends with.
pub open spec fn strip_trailing(s: Seq<char>) -> Seq<char>
    decreases s.len(),
{
    if s.len() > 0 && s.last() == quote() {
        strip_trailing(s.drop_last())
    } else {
        s
    }
}

/// The normal form of a path: the quotes at its two ends removed.
pub open spec fn strip_quotes(s: Seq<char>) -> Seq<char> {
    strip_trailing(strip_leading(s))
}

/// Whether `s` holds no quote at all.
pub open spec fn quote_free(s: Seq<char>) -> bool {
    forall|i: int| 0 <= i < s.len() ==> s[i] != quote()
}

/// Where `s` starts with `a` quotes and then either ends or goes on with
/// another character, stripping the leading quotes leaves `s` from `a` on.
pub proof fn lemma_strip_leading_at(s: Seq<char>, a: int)
    requires
        0 <= a <= s.len(),
        forall|j: int| 0 <= j < a ==> s[j] == quote(),
        a < s.len() ==> s[a] != quote(),
    ensures
        strip_leading(s) == s.subrange(a, s.len() as int),
    decreases a,
{
    if a == 0 {
        assert(s.subrange(0, s.len() as int) =~= s);
    } else {
        let t = s.drop_first();
        assert forall|j: int| 0 <= j < a - 1 implies t[j] == quote() by {
            assert(t[j] == s[j + 1]);
        }
        lemma_strip_leading_at(t, a - 1);
        assert(t.subrange(a - 1, t.len() as int) =~= s.subrange(a, s.len() as int));
    }
}

/// Where `s` ends with quotes from `b` on and the character before `b`, if
/// there is one, is no quote, stripping the trailing quotes leaves `s` up to `b`.
pub proof fn lemma_strip_trailing_at(s: Seq<char>, b: int)
    requires
        0 <= b <= s.len(),
        forall|j: int| b <= j < s.len() ==> s[j] == quote(),
        0 < b ==> s[b - 1] != quote(),
    ensures
        strip_trailing(s) == s.subrange(0, b),
    decreases s.len() - b,
{
    if b == s.len() {
        assert(s.subrange(0, b) =~= s);
    } else {
        let t = s.drop_last();
        lemma_strip_trailing_at(t, b);
        assert(t.subrange(0, b) =~= s.subrange(0, b));
    }
}

/// The normal form of `s` is the stretch of `s` between its leading and its
/// trailing quotes: with `a` the place of the first character that is no
/// quote and `b` the place after the last one, it is `s` from `a` to `b`;
/// where `s` holds quotes only, it is empty.
pub proof fn lemma_strip_quotes_between(s: Seq<char>, a: int, b: int)
    requires
        0 <= a <= b <= s.len(),
        forall|j: int| 0 <= j < a ==> s[j] == quote(),
        forall|j: int| b <= j < s.len() ==> s[j] == quote(),
        a < b ==> s[a] != quote() && s[b - 1] != quote(),
        a == b ==> a == s.len(),
    ensures
        strip_quotes(s) == s.subrange(a, b),
{
    lemma_strip_leading_at(s, a);
    let t = s.subrange(a, s.len() as int);
    assert forall|j: int| b - a <= j < t.len() implies t[j] == quote() by {
        assert(t[j] == s[j + a]);
    }
    lemma_strip_trailing_at(t, b - a);
    assert(t.subrange(0, b - a) =~= s.subrange(a, b));
}

/// Quoting a path changes nothing: a path that holds no quote is its own
/// normal form, and so is the same path wrapped in a pair of quotes.
pub proof fn lemma_quoting_is_ignored(p: Seq<char>)
    requires
        quote_free(p),
    ensures
        strip_quotes(p) == p,
        strip_quotes(seq![quote()] + p + seq![quote()]) == p,
{
    let plain_end = p.len() as int;
    if p.len() == 0 {
        lemma_strip_quotes_between(p, 0, 0);
        assert(p.subrange(0, 0) =~= p);
        let w = seq![quote()] + p + seq![quote()];
        lemma_strip_quotes_between(w, 2, 2);
        assert(w.subrange(2, 2) =~= p);
    } else {
        lemma_strip_quotes_between(p, 0, plain_end);
        assert(p.subrange(0, plain_end) =~= p);
        let w = seq![quote()] + p + seq![quote()];
        assert(w[1] == p[0]);
        assert(w[plain_end] == p[plain_end - 1]);
        lemma_strip_quotes_between(w, 1, plain_end + 1);
        assert(w.subrange(1, plain_end + 1) =~= p);
    }
}

/// Normalizes a path: returns the part of `path` left after the double
/// quotes at its start and at its end are removed. A quote at one end only
/// is removed as well, and a quote inside the path stays.
pub fn normalize_path(path: &str) -> (normalized: &str)
    ensures
        normalized@ == strip_quotes(path@),
{
    let len: usize = path.unicode_len();
    let mut start: usize = 0;
    let mut end: usize = 0;
    let mut i: usize = 0;
    for c in it: path.chars()
        invariant
            len == path@.len(),
            it.seq() == path@,
            i == it.index(),
            start <= end <= i,
            forall|j: int| 0 <= j < start ==> path@[j] == quote(),
            forall|j: int| end <= j < i ==> path@[j] == quote(),
            start < end ==> path@[start as int] != quote() && path@[end - 1] != quote(),
            start == end ==> start == i,
    {
        if c == '"' {
            if start == i {
                start = i + 1;
                end = i + 1;
            }
        } else {
            end = i + 1;
        }
        i = i + 1;
    }
    proof {
        lemma_strip_quotes_between(path@, start as int, end as int);
    }
    path.substring_char(start, end)
}

} // verus!
