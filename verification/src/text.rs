//! Character-level text operations the cache format and the search need:
//! substring matching, first-occurrence search, whitespace trimming and
//! prefix stripping, each verified against a direct mathematical statement
//! over sequences of characters.

use vstd::prelude::*;

verus! {

/// The characters that trimming removes: the Unicode white-space set.
pub open spec fn is_space_char(c: char) -> bool {
    c == ' ' || c == '\t' || c == '\n' || c == '\r' || c == '\u{000B}' || c == '\u{000C}'
        || c == '\u{0085}' || c == '\u{00A0}' || c == '\u{1680}' || c == '\u{2000}' || c
        == '\u{2001}' || c == '\u{2002}' || c == '\u{2003}' || c == '\u{2004}' || c == '\u{2005}'
        || c == '\u{2006}' || c == '\u{2007}' || c == '\u{2008}' || c == '\u{2009}' || c
        == '\u{200A}' || c == '\u{2028}' || c == '\u{2029}' || c == '\u{202F}' || c == '\u{205F}'
        || c == '\u{3000}'
}

/// Whether `c` is removed by trimming.
pub fn is_space(c: char) -> (r: bool)
    ensures
        r == is_space_char(c),
{
    c == ' ' || c == '\t' || c == '\n' || c == '\r' || c == '\u{000B}' || c == '\u{000C}' || c
        == '\u{0085}' || c == '\u{00A0}' || c == '\u{1680}' || c == '\u{2000}' || c == '\u{2001}'
        || c == '\u{2002}' || c == '\u{2003}' || c == '\u{2004}' || c == '\u{2005}' || c
        == '\u{2006}' || c == '\u{2007}' || c == '\u{2008}' || c == '\u{2009}' || c == '\u{200A}'
        || c == '\u{2028}' || c == '\u{2029}' || c == '\u{202F}' || c == '\u{205F}' || c
        == '\u{3000}'
}

/// `pat` occurs in `text` starting at position `i`.
pub open spec fn match_at(text: Seq<char>, pat: Seq<char>, i: int) -> bool {
    &&& 0 <= i
    &&& i + pat.len() <= text.len()
    &&& text.subrange(i, i + pat.len() as int) == pat
}

/// `text` holds `pat` as a contiguous substring.
pub open spec fn contains_spec(text: Seq<char>, pat: Seq<char>) -> bool {
    exists|i: int| match_at(text, pat, i)
}

/// The position of the first occurrence of `pat` in `text` at or after
/// `from`, if there is one.
pub open spec fn find_from_spec(text: Seq<char>, pat: Seq<char>, from: int) -> Option<int>
    decreases text.len() - from,
{
    if from + pat.len() > text.len() {
        Option::None
    } else if match_at(text, pat, from) {
        Option::Some(from)
    } else if from >= text.len() {
        Option::None
    } else {
        find_from_spec(text, pat, from + 1)
    }
}

/// The position of the first occurrence of `pat` in `text`, if there is one.
pub open spec fn find_spec(text: Seq<char>, pat: Seq<char>) -> Option<int> {
    find_from_spec(text, pat, 0)
}

/// What `find_from_spec` returns: the first match at or after `from`, or
/// `None` when there is none.
pub proof fn lemma_find_from_spec(text: Seq<char>, pat: Seq<char>, from: int)
    requires
        0 <= from,
    ensures
        (match find_from_spec(text, pat, from) {
            Option::Some(i) => from <= i && match_at(text, pat, i) && (forall|j: int|
                from <= j < i ==> !match_at(text, pat, j)),
            Option::None => forall|j: int| from <= j ==> !match_at(text, pat, j),
        }),
    decreases text.len() - from,
{
    if from + pat.len() > text.len() {
        assert forall|j: int| from <= j implies !match_at(text, pat, j) by {
            assert(j + pat.len() > text.len());
        }
    } else if match_at(text, pat, from) {
    } else if from >= text.len() {
        assert(text.subrange(from, from + pat.len() as int) =~= pat);
        assert(match_at(text, pat, from));
    } else {
        lemma_find_from_spec(text, pat, from + 1);
    }
}

/// A first occurrence exists exactly when some occurrence exists.
pub proof fn lemma_find_spec_contains(text: Seq<char>, pat: Seq<char>)
    ensures
        (find_spec(text, pat) is Some) == contains_spec(text, pat),
{
    lemma_find_from_spec(text, pat, 0);
    match find_spec(text, pat) {
        Option::Some(i) => {
            assert(contains_spec(text, pat));
        },
        Option::None => {
            assert forall|i: int| !match_at(text, pat, i) by {
                if i < 0 {
                } else {
                    assert(!match_at(text, pat, i));
                }
            }
        },
    }
}

/// An occurrence that nothing precedes is the one `find_spec` returns.
pub proof fn lemma_find_spec_first(text: Seq<char>, pat: Seq<char>, i: int)
    requires
        match_at(text, pat, i),
        forall|j: int| 0 <= j < i ==> !match_at(text, pat, j),
    ensures
        find_spec(text, pat) == Option::Some(i),
{
    lemma_find_from_spec(text, pat, 0);
    match find_spec(text, pat) {
        Option::Some(k) => {
            if k < i {
                assert(!match_at(text, pat, k));
            } else if k > i {
                assert(!match_at(text, pat, i));
            }
        },
        Option::None => {
            assert(!match_at(text, pat, i));
        },
    }
}

/// Whether `pat` occurs in `text` at position `i`.
fn is_match_at(text: &str, pat: &str, i: usize) -> (r: bool)
    requires
        i + pat@.len() <= text@.len(),
    ensures
        r == match_at(text@, pat@, i as int),
{
    let n = text.unicode_len();
    let m = pat.unicode_len();
    let mut j: usize = 0;
    while j < m
        invariant
            j <= m,
            n == text@.len(),
            m == pat@.len(),
            i + m <= n,
            forall|k: int| 0 <= k < j ==> text@[i + k] == pat@[k],
        decreases m - j,
    {
        if text.get_char(i + j) != pat.get_char(j) {
            assert(!match_at(text@, pat@, i as int)) by {
                if match_at(text@, pat@, i as int) {
                    assert(text@.subrange(i as int, i + pat@.len() as int)[j as int] == text@[i
                        + j]);
                }
            }
            return false;
        }
        j += 1;
    }
    assert(text@.subrange(i as int, i + pat@.len() as int) =~= pat@);
    true
}

/// The position of the first occurrence of `pat` in `text`, if there is one.
pub fn find(text: &str, pat: &str) -> (r: Option<usize>)
    ensures
        (match r {
            Option::Some(i) => find_spec(text@, pat@) == Option::Some(i as int),
            Option::None => find_spec(text@, pat@) is None,
        }),
{
    let n = text.unicode_len();
    let m = pat.unicode_len();
    if m > n {
        return Option::None;
    }
    if m == 0 {
        proof {
            assert(text@.subrange(0, 0) =~= pat@);
            assert(match_at(text@, pat@, 0));
        }
        return Option::Some(0);
    }
    let mut i: usize = 0;
    while i <= n - m
        invariant
            n == text@.len(),
            m == pat@.len(),
            1 <= m <= n,
            i <= n - m + 1,
            find_spec(text@, pat@) == find_from_spec(text@, pat@, i as int),
        decreases n - i,
    {
        if is_match_at(text, pat, i) {
            return Option::Some(i);
        }
        i += 1;
    }
    Option::None
}

/// `text` holds `pat` as a contiguous substring.
pub fn contains(text: &str, pat: &str) -> (r: bool)
    ensures
        r == contains_spec(text@, pat@),
{
    proof {
        lemma_find_spec_contains(text@, pat@);
    }
    match find(text, pat) {
        Option::Some(_) => true,
        Option::None => false,
    }
}

/// `s` with its leading white space removed.
pub open spec fn trim_start_spec(s: Seq<char>) -> Seq<char>
    decreases s.len(),
{
    if s.len() == 0 {
        s
    } else if is_space_char(s[0]) {
        trim_start_spec(s.drop_first())
    } else {
        s
    }
}

/// `s` with its trailing white space removed.
pub open spec fn trim_end_spec(s: Seq<char>) -> Seq<char>
    decreases s.len(),
{
    if s.len() == 0 {
        s
    } else if is_space_char(s[s.len() - 1]) {
        trim_end_spec(s.drop_last())
    } else {
        s
    }
}

/// `s` with white space removed from both ends, as trimming leaves it.
pub open spec fn trim_spec(s: Seq<char>) -> Seq<char> {
    trim_end_spec(trim_start_spec(s))
}

/// Trimming a sequence without white space at either end changes nothing.
pub proof fn lemma_trim_id(s: Seq<char>)
    requires
        s.len() == 0 || (!is_space_char(s[0]) && !is_space_char(s[s.len() - 1])),
    ensures
        trim_spec(s) == s,
{
}

/// `s` with white space removed from both ends.
pub fn trim(s: &str) -> (r: String)
    ensures
        r@ == trim_spec(s@),
{
    let n = s.unicode_len();
    proof {
        assert(s@.subrange(0, n as int) =~= s@);
    }
    let mut start: usize = 0;
    while start < n && is_space(s.get_char(start))
        invariant
            start <= n,
            n == s@.len(),
            trim_start_spec(s@) == trim_start_spec(s@.subrange(start as int, n as int)),
        decreases n - start,
    {
        proof {
            let tail = s@.subrange(start as int, n as int);
            assert(tail[0] == s@[start as int]);
            assert(tail.drop_first() =~= s@.subrange(start + 1, n as int));
        }
        start += 1;
    }
    proof {
        let tail = s@.subrange(start as int, n as int);
        if start < n {
            assert(tail[0] == s@[start as int]);
            assert(trim_start_spec(tail) == tail);
        } else {
            assert(tail =~= Seq::<char>::empty());
            assert(trim_start_spec(tail) == tail);
        }
        assert(trim_start_spec(s@) == s@.subrange(start as int, n as int));
    }
    let mut end: usize = n;
    while end > start && is_space(s.get_char(end - 1))
        invariant
            start <= end <= n,
            n == s@.len(),
            trim_start_spec(s@) == s@.subrange(start as int, n as int),
            trim_spec(s@) == trim_end_spec(s@.subrange(start as int, end as int)),
        decreases end,
    {
        proof {
            let part = s@.subrange(start as int, end as int);
            assert(part.len() == end - start);
            assert(part[part.len() - 1] == s@[end - 1]);
            assert(part.drop_last() =~= s@.subrange(start as int, end - 1));
        }
        end -= 1;
    }
    proof {
        let part = s@.subrange(start as int, end as int);
        if end > start {
            assert(part[part.len() - 1] == s@[end - 1]);
            assert(trim_end_spec(part) == part);
        } else {
            assert(part =~= Seq::<char>::empty());
            assert(trim_end_spec(part) == part);
        }
        assert(trim_spec(s@) == s@.subrange(start as int, end as int));
    }
    s.substring_char(start, end).to_owned()
}

/// `s` with one leading copy of `p` removed, when `s` starts with `p`;
/// otherwise `s` unchanged.
pub open spec fn strip_prefix_spec(s: Seq<char>, p: Seq<char>) -> Seq<char> {
    if p.len() <= s.len() && s.subrange(0, p.len() as int) == p {
        s.subrange(p.len() as int, s.len() as int)
    } else {
        s
    }
}

/// `s` with one leading copy of `p` removed, if it has one.
pub fn strip_prefix(s: &str, p: &str) -> (r: String)
    ensures
        r@ == strip_prefix_spec(s@, p@),
{
    let n = s.unicode_len();
    let m = p.unicode_len();
    if m <= n && is_match_at(s, p, 0) {
        s.substring_char(m, n).to_owned()
    } else {
        s.to_owned()
    }
}

} // verus!
