//! Literal substring search over sequences of characters, with optional
//! case folding.

use vstd::prelude::*;

verus! {

/// The character sequences of a list of strings.
pub open spec fn texts(v: Seq<String>) -> Seq<Seq<char>> {
    Seq::new(v.len(), |i: int| v[i]@)
}

/// `needle` stands in `hay` at index `i`.
pub open spec fn occurs_at(hay: Seq<char>, needle: Seq<char>, i: int) -> bool {
    &&& 0 <= i
    &&& i + needle.len() <= hay.len()
    &&& hay.subrange(i, i + needle.len()) == needle
}

/// `needle` is a contiguous part of `hay`.
pub open spec fn occurs(hay: Seq<char>, needle: Seq<char>) -> bool {
    exists|i: int| occurs_at(hay, needle, i)
}

/// The least index at or after `from` at which `needle` stands in `hay`.
pub open spec fn first_occurrence(hay: Seq<char>, needle: Seq<char>, from: int) -> Option<int>
    decreases hay.len() + 1 - from,
{
    if from < 0 || from + needle.len() > hay.len() {
        None
    } else if occurs_at(hay, needle, from) {
        Some(from)
    } else {
        first_occurrence(hay, needle, from + 1)
    }
}

/// What `str::to_lowercase` returns for a string with the characters `s`.
pub uninterp spec fn lowercase(s: Seq<char>) -> Seq<char>;

/// The text on which a search runs: `s` itself, or its lowercase form when
/// case is ignored.
pub open spec fn folded(s: Seq<char>, case_insensitive: bool) -> Seq<char> {
    if case_insensitive {
        lowercase(s)
    } else {
        s
    }
}

/// The pattern that is searched for: the pattern as given, or its lowercase
/// form when case is ignored. The empty pattern stays empty.
pub open spec fn effective(pattern: Seq<char>, case_insensitive: bool) -> Seq<char> {
    if pattern.len() == 0 {
        pattern
    } else {
        folded(pattern, case_insensitive)
    }
}

/// Whether a line matches a pattern as the user gave it.
pub open spec fn matches(line: Seq<char>, pattern: Seq<char>, case_insensitive: bool) -> bool {
    occurs(folded(line, case_insensitive), effective(pattern, case_insensitive))
}

/// A line matches a pattern that is not empty exactly when it holds the
/// pattern; with case ignored, when the lowercase line holds the lowercase
/// pattern.
pub proof fn lemma_matches_is_containment(line: Seq<char>, pattern: Seq<char>)
    requires
        pattern.len() > 0,
    ensures
        matches(line, pattern, false) == occurs(line, pattern),
        matches(line, pattern, true) == occurs(lowercase(line), lowercase(pattern)),
{
}

/// The empty pattern matches every line, whether or not case is ignored.
pub proof fn lemma_empty_pattern_matches(
    line: Seq<char>,
    pattern: Seq<char>,
    case_insensitive: bool,
)
    requires
        pattern.len() == 0,
    ensures
        matches(line, pattern, case_insensitive),
{
    lemma_empty_occurs(folded(line, case_insensitive));
    assert(pattern =~= Seq::<char>::empty());
}

/// `first_occurrence` finds an occurrence, and none lies before it.
pub proof fn lemma_first_occurrence(hay: Seq<char>, needle: Seq<char>, from: int)
    requires
        0 <= from,
    ensures
        match first_occurrence(hay, needle, from) {
            Some(p) => from <= p && occurs_at(hay, needle, p) && forall|j: int|
                from <= j < p ==> !occurs_at(hay, needle, j),
            None => forall|j: int| from <= j ==> !occurs_at(hay, needle, j),
        },
    decreases hay.len() + 1 - from,
{
    if from + needle.len() > hay.len() {
    } else if occurs_at(hay, needle, from) {
    } else {
        lemma_first_occurrence(hay, needle, from + 1);
    }
}

/// A search from the start succeeds exactly when the needle occurs.
pub proof fn lemma_found_iff_occurs(hay: Seq<char>, needle: Seq<char>)
    ensures
        first_occurrence(hay, needle, 0) is Some <==> occurs(hay, needle),
{
    lemma_first_occurrence(hay, needle, 0);
    if occurs(hay, needle) {
        let i = choose|i: int| occurs_at(hay, needle, i);
        assert(occurs_at(hay, needle, i));
    }
}

/// The empty needle occurs in every text.
pub proof fn lemma_empty_occurs(hay: Seq<char>)
    ensures
        occurs(hay, Seq::<char>::empty()),
{
    assert(hay.subrange(0, 0) =~= Seq::<char>::empty());
    assert(occurs_at(hay, Seq::<char>::empty(), 0));
}

/// The characters of `s`, in order.
pub fn chars_of(s: &str) -> (v: Vec<char>)
    ensures
        v@ == s@,
{
    let mut v: Vec<char> = Vec::new();
    for c in it: s.chars()
        invariant
            v@ == it.seq().take(it.index() as int),
            it.seq() == s@,
    {
        v.push(c);
    }
    v
}

/// Whether `needle` stands in `hay` at index `i`.
pub fn matches_at(hay: &Vec<char>, needle: &Vec<char>, i: usize) -> (b: bool)
    ensures
        b == occurs_at(hay@, needle@, i as int),
{
    let h: usize = hay.len();
    let n: usize = needle.len();
    if n > h || i > h - n {
        return false;
    }
    let mut k: usize = 0;
    while k < n
        invariant
            h == hay@.len(),
            n == needle@.len(),
            i + n <= h,
            k <= n,
            forall|j: int| 0 <= j < k ==> hay@[i + j] == needle@[j],
        decreases n - k,
    {
        if hay[i + k] != needle[k] {
            proof {
                assert(hay@.subrange(i as int, i + n)[k as int] == hay@[i + k]);
            }
            return false;
        }
        k += 1;
    }
    proof {
        assert(hay@.subrange(i as int, i + n) =~= needle@);
    }
    true
}

/// The first index at or after `from` at which `needle` stands in `hay`.
pub fn find_from(hay: &Vec<char>, needle: &Vec<char>, from: usize) -> (r: Option<usize>)
    ensures
        match r {
            Some(p) => first_occurrence(hay@, needle@, from as int) == Some(p as int),
            None => first_occurrence(hay@, needle@, from as int) is None,
        },
{
    let h: usize = hay.len();
    let n: usize = needle.len();
    if n > h || from > h - n {
        return None;
    }
    let last: usize = h - n;
    let mut i: usize = from;
    loop
        invariant
            h == hay@.len(),
            n == needle@.len(),
            n <= h,
            last == h - n,
            from <= i <= last,
            first_occurrence(hay@, needle@, from as int) == first_occurrence(
                hay@,
                needle@,
                i as int,
            ),
        decreases last - i,
    {
        if matches_at(hay, needle, i) {
            return Some(i);
        }
        if i == last {
            assert(first_occurrence(hay@, needle@, i + 1) is None);
            return None;
        }
        i += 1;
    }
}

/// Calls `str::to_lowercase`. The contract gives the result the name
/// `lowercase`: it is a function of the characters of `s` alone.
#[verifier::external_body]
fn to_lowercase(s: &str) -> (r: String)
    ensures
        r@ == lowercase(s@),
{
    s.to_lowercase()
}

/// The text on which a search runs: a copy of `s`, in lowercase when case
/// is ignored.
pub fn fold_case(s: &str, case_insensitive: bool) -> (r: String)
    ensures
        r@ == folded(s@, case_insensitive),
{
    if case_insensitive {
        to_lowercase(s)
    } else {
        s.to_owned()
    }
}

/// The pattern that is searched for: a copy of `pattern`, in lowercase when
/// case is ignored.
pub fn effective_pattern(pattern: &str, case_insensitive: bool) -> (r: String)
    ensures
        r@ == effective(pattern@, case_insensitive),
{
    if pattern.is_empty() {
        pattern.to_owned()
    } else {
        fold_case(pattern, case_insensitive)
    }
}

/// Whether `line` holds `pattern` as a contiguous part. When case is ignored
/// the line is folded first; the pattern is taken as it is given, so the
/// caller passes the folded pattern.
pub fn contains(line: &str, pattern: &str, case_insensitive: bool) -> (b: bool)
    ensures
        b == occurs(folded(line@, case_insensitive), pattern@),
        pattern@.len() == 0 ==> b,
{
    proof {
        if pattern@.len() == 0 {
            lemma_empty_occurs(folded(line@, case_insensitive));
            assert(pattern@ =~= Seq::<char>::empty());
        }
    }
    let hay_text: String = fold_case(line, case_insensitive);
    let hay: Vec<char> = chars_of(hay_text.as_str());
    let needle: Vec<char> = chars_of(pattern);
    proof {
        lemma_found_iff_occurs(hay@, needle@);
    }
    find_from(&hay, &needle, 0).is_some()
}

} // verus!
