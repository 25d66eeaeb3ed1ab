//! Highlighting of the matches in an emitted line.
//!
//! Matches are looked for in the folded copy of a line. Folding may change
//! the number of characters, so each place in the folded copy is mapped back
//! to the character of the line that it comes from, and the highlighted text
//! is taken from the line as it was read.

use crate::text::{chars_of, find_from, first_occurrence, fold_case, folded, lowercase};
use crate::text::{occurs, occurs_at};
use crate::text::{lemma_first_occurrence, lemma_found_iff_occurs, texts};
use colored::Colorize;
use vstd::prelude::*;
use vstd::string::StrSliceExecFns;
use vstd::string::StringExecFns;

verus! {

/// The escape sequence that switches red text on.
pub open spec fn red_on() -> Seq<char> {
    seq!['\u{1b}', '[', '3', '1', 'm']
}

/// The escape sequence that switches every style off.
pub open spec fn style_off() -> Seq<char> {
    seq!['\u{1b}', '[', '0', 'm']
}

/// `s` with red switched on again behind each switch-off sequence in it.
pub open spec fn restyled(s: Seq<char>) -> Seq<char>
    decreases s.len(),
{
    if s.len() == 0 {
        s
    } else if style_off().is_prefix_of(s) {
        style_off() + red_on() + restyled(s.skip(4))
    } else {
        seq![s[0]] + restyled(s.skip(1))
    }
}

/// `r` is a rendering of `s` in red: `s` itself where colours are switched
/// off for the process, else `s` between the two escape sequences.
pub open spec fn is_red_rendering(s: Seq<char>, r: Seq<char>) -> bool {
    r == s || r == red_on() + restyled(s) + style_off()
}

/// The number of characters that one character of a line takes in the folded
/// copy.
pub open spec fn char_width(c: char, case_insensitive: bool) -> int {
    if case_insensitive {
        lowercase(seq![c]).len() as int
    } else {
        1
    }
}

/// The number of characters that the first `k` characters of `line` take in
/// the folded copy.
pub open spec fn fold_bound(line: Seq<char>, case_insensitive: bool, k: int) -> int
    decreases k,
{
    if k <= 0 {
        0
    } else {
        fold_bound(line, case_insensitive, k - 1) + char_width(line[k - 1], case_insensitive)
    }
}

/// Where each character of `line` begins in the folded copy, and, as the last
/// entry, where the folded copy ends.
pub open spec fn fold_bounds(line: Seq<char>, case_insensitive: bool) -> Seq<int> {
    Seq::new(line.len() + 1, |k: int| fold_bound(line, case_insensitive, k))
}

/// A copy of `folded_len` characters is `line` folded character by character:
/// every character takes at least one place in it, and together they take
/// all of them.
pub open spec fn fills(line: Seq<char>, case_insensitive: bool, folded_len: int) -> bool {
    &&& forall|i: int|
        0 <= i < line.len() ==> char_width(#[trigger] line[i], case_insensitive) >= 1
    &&& fold_bound(line, case_insensitive, line.len() as int) == folded_len
}

/// The folded copy of `line` is `line` folded character by character.
pub open spec fn folds_by_character(line: Seq<char>, case_insensitive: bool) -> bool {
    fills(line, case_insensitive, folded(line, case_insensitive).len() as int)
}

/// The index, at or after `k`, of the character of the line whose folded
/// form holds place `p` of the folded copy.
pub open spec fn holder(bounds: Seq<int>, p: int, k: int) -> int
    decreases bounds.len() - k,
{
    if k + 1 >= bounds.len() || bounds[k + 1] > p {
        k
    } else {
        holder(bounds, p, k + 1)
    }
}

/// The least index, at or after `k`, of a character of the line that begins
/// at or after place `q` of the folded copy; the end of the line if there is
/// none.
pub open spec fn closer(bounds: Seq<int>, q: int, k: int) -> int
    decreases bounds.len() - k,
{
    if k + 1 >= bounds.len() || bounds[k] >= q {
        k
    } else {
        closer(bounds, q, k + 1)
    }
}

/// The parts of the line to highlight, from character `from` on, each as the
/// index of its first character and the index behind its last. The folded
/// copy is searched from the place where character `from` begins; a match
/// gives the characters of the line whose folded forms it touches; the
/// search goes on behind them. The empty needle gives no part.
pub open spec fn line_spans(
    hay: Seq<char>,
    needle: Seq<char>,
    bounds: Seq<int>,
    from: int,
) -> Seq<(int, int)>
    decreases bounds.len() - from,
{
    if needle.len() == 0 || from < 0 || from + 1 >= bounds.len() {
        Seq::empty()
    } else {
        match first_occurrence(hay, needle, bounds[from]) {
            None => Seq::empty(),
            Some(p) => {
                let a = holder(bounds, p, from);
                let b = closer(bounds, p + needle.len(), a + 1);
                if from <= a && a < b && b + 1 <= bounds.len() {
                    seq![(a, b)] + line_spans(hay, needle, bounds, b)
                } else {
                    Seq::empty()
                }
            },
        }
    }
}

/// Where span number `k` ends, counting from one; zero for `k` zero.
pub open spec fn span_end(spans: Seq<(int, int)>, k: int) -> int {
    if k <= 0 {
        0
    } else {
        spans[k - 1].1
    }
}

/// The spans lie in a text of `len` characters, in order and without
/// overlap.
pub open spec fn spans_in_order(spans: Seq<(int, int)>, len: int) -> bool {
    forall|k: int|
        0 <= k < spans.len() ==> {
            &&& span_end(spans, k) <= (#[trigger] spans[k]).0
            &&& spans[k].0 <= spans[k].1
            &&& spans[k].1 <= len
        }
}

/// The output up to the end of span number `k`: the text between the spans
/// as it is, each span replaced by its entry in `paints`.
pub open spec fn spliced_prefix(
    line: Seq<char>,
    spans: Seq<(int, int)>,
    paints: Seq<Seq<char>>,
    k: nat,
) -> Seq<char>
    decreases k,
{
    if k == 0 {
        Seq::empty()
    } else {
        spliced_prefix(line, spans, paints, (k - 1) as nat) + line.subrange(
            span_end(spans, k - 1),
            spans[k - 1].0,
        ) + paints[k - 1]
    }
}

/// `line` with each span replaced by its entry in `paints`.
pub open spec fn spliced(line: Seq<char>, spans: Seq<(int, int)>, paints: Seq<Seq<char>>) -> Seq<
    char,
> {
    spliced_prefix(line, spans, paints, spans.len()) + line.subrange(
        span_end(spans, spans.len() as int),
        line.len() as int,
    )
}

/// Each entry of `paints` is a rendering in red of the span of `line` with
/// the same number.
pub open spec fn are_red_renderings(
    line: Seq<char>,
    spans: Seq<(int, int)>,
    paints: Seq<Seq<char>>,
) -> bool {
    &&& paints.len() == spans.len()
    &&& forall|k: int|
        0 <= k < spans.len() ==> is_red_rendering(
            line.subrange(spans[k].0, spans[k].1),
            #[trigger] paints[k],
        )
}

/// `out` is `line` with each part that matches rendered in red: the parts
/// are those that the occurrences of `needle` in `hay` map back to by
/// `bounds`.
pub open spec fn is_highlighted(
    line: Seq<char>,
    hay: Seq<char>,
    needle: Seq<char>,
    bounds: Seq<int>,
    out: Seq<char>,
) -> bool {
    exists|paints: Seq<Seq<char>>| #[trigger]
        are_red_renderings(line, line_spans(hay, needle, bounds, 0), paints) && out == spliced(
            line,
            line_spans(hay, needle, bounds, 0),
            paints,
        )
}

/// The positions held in a vector, as mathematical integers.
pub open spec fn positions(v: Seq<usize>) -> Seq<int> {
    Seq::new(v.len(), |i: int| v[i] as int)
}

/// The spans held in a vector, as pairs of mathematical integers.
pub open spec fn spans_of(v: Seq<(usize, usize)>) -> Seq<(int, int)> {
    Seq::new(v.len(), |i: int| (v[i].0 as int, v[i].1 as int))
}

/// More characters of the line take no fewer places in the folded copy.
pub proof fn lemma_fold_bound_grows(line: Seq<char>, case_insensitive: bool, j: int, k: int)
    requires
        0 <= j <= k,
    ensures
        0 <= fold_bound(line, case_insensitive, j) <= fold_bound(line, case_insensitive, k),
    decreases k,
{
    if k > 0 {
        if j < k {
            lemma_fold_bound_grows(line, case_insensitive, j, k - 1);
        } else {
            lemma_fold_bound_grows(line, case_insensitive, j - 1, k - 1);
        }
    }
}

/// Where every character of the line takes one place in the folded copy,
/// the first `k` characters take `k` places.
pub proof fn lemma_unit_widths(line: Seq<char>, case_insensitive: bool, k: int)
    requires
        0 <= k <= line.len(),
        forall|i: int|
            0 <= i < line.len() ==> char_width(#[trigger] line[i], case_insensitive) == 1,
    ensures
        fold_bound(line, case_insensitive, k) == k,
    decreases k,
{
    if k > 0 {
        lemma_unit_widths(line, case_insensitive, k - 1);
    }
}

/// Where every character of the line takes one place in the folded copy,
/// character `k` of the line begins at place `k` of the copy.
pub proof fn lemma_unit_widths_one_to_one(line: Seq<char>, case_insensitive: bool)
    requires
        forall|i: int|
            0 <= i < line.len() ==> char_width(#[trigger] line[i], case_insensitive) == 1,
    ensures
        is_one_to_one(fold_bounds(line, case_insensitive)),
        fold_bound(line, case_insensitive, line.len() as int) == line.len(),
{
    assert forall|k: int| 0 <= k <= line.len() implies fold_bound(line, case_insensitive, k)
        == k by {
        lemma_unit_widths(line, case_insensitive, k);
    }
}

/// Where case is kept, the folded copy is the line, character by character,
/// and the parts to highlight are the occurrences of the pattern in the line,
/// taken from the left without overlap.
pub proof fn lemma_same_case_spans(line: Seq<char>, pattern: Seq<char>)
    ensures
        folds_by_character(line, false),
        line_spans(line, pattern, fold_bounds(line, false), 0) == spans_at(
            match_starts(line, pattern, 0),
            pattern.len() as int,
        ),
{
    lemma_unit_widths_one_to_one(line, false);
    lemma_spans_are_occurrences(line, pattern, fold_bounds(line, false), 0);
}

/// The spans from `from` on begin at or after `from`, are not empty, end in
/// the line, and each begins at or behind the end of the one before it.
pub open spec fn are_spans_from(spans: Seq<(int, int)>, from: int, len: int) -> bool {
    forall|k: int|
        0 <= k < spans.len() ==> {
            &&& from <= (#[trigger] spans[k]).0
            &&& spans[k].0 < spans[k].1
            &&& spans[k].1 <= len
            &&& k > 0 ==> spans[k - 1].1 <= spans[k].0
        }
}

/// The parts to highlight lie in the line, in order and without overlap.
pub proof fn lemma_line_spans_from(
    hay: Seq<char>,
    needle: Seq<char>,
    bounds: Seq<int>,
    from: int,
)
    requires
        0 <= from,
    ensures
        are_spans_from(line_spans(hay, needle, bounds, from), from, bounds.len() - 1),
    decreases bounds.len() - from,
{
    let here = line_spans(hay, needle, bounds, from);
    if needle.len() == 0 || from + 1 >= bounds.len() {
    } else {
        match first_occurrence(hay, needle, bounds[from]) {
            None => {},
            Some(p) => {
                let a = holder(bounds, p, from);
                let b = closer(bounds, p + needle.len(), a + 1);
                if from <= a && a < b && b + 1 <= bounds.len() {
                    let rest = line_spans(hay, needle, bounds, b);
                    lemma_line_spans_from(hay, needle, bounds, b);
                    assert(here == seq![(a, b)] + rest);
                    assert forall|k: int| 0 <= k < here.len() implies {
                        &&& from <= (#[trigger] here[k]).0
                        &&& here[k].0 < here[k].1
                        &&& here[k].1 <= bounds.len() - 1
                        &&& k > 0 ==> here[k - 1].1 <= here[k].0
                    } by {
                        if k > 0 {
                            assert(here[k] == rest[k - 1]);
                            if k > 1 {
                                assert(here[k - 1] == rest[k - 2]);
                            }
                        }
                    }
                }
            },
        }
    }
}

/// The parts to highlight are spans in order in a line that `bounds` has an
/// entry for each character of, and one more.
pub proof fn lemma_line_spans_in_order(hay: Seq<char>, needle: Seq<char>, bounds: Seq<int>)
    ensures
        spans_in_order(line_spans(hay, needle, bounds, 0), bounds.len() - 1),
{
    lemma_line_spans_from(hay, needle, bounds, 0);
    let spans = line_spans(hay, needle, bounds, 0);
    assert forall|k: int| 0 <= k < spans.len() implies {
        &&& span_end(spans, k) <= (#[trigger] spans[k]).0
        &&& spans[k].0 <= spans[k].1
        &&& spans[k].1 <= bounds.len() - 1
    } by {
        if k > 0 {
            assert(spans[k - 1].1 <= spans[k].0);
        }
    }
}

/// The starts of the occurrences of `needle` in `hay` at or after `from`,
/// taken from the left, none overlapping the one before it. The empty needle
/// has none.
pub open spec fn match_starts(hay: Seq<char>, needle: Seq<char>, from: int) -> Seq<int>
    decreases hay.len() - from,
{
    if needle.len() == 0 || from < 0 || from + needle.len() > hay.len() {
        Seq::empty()
    } else if occurs_at(hay, needle, from) {
        seq![from] + match_starts(hay, needle, from + needle.len())
    } else {
        match_starts(hay, needle, from + 1)
    }
}

/// The spans of `width` characters that begin at `starts`.
pub open spec fn spans_at(starts: Seq<int>, width: int) -> Seq<(int, int)> {
    Seq::new(starts.len(), |k: int| (starts[k], starts[k] + width))
}

/// Every character takes one place in the folded copy: entry `k` is `k`.
pub open spec fn is_one_to_one(bounds: Seq<int>) -> bool {
    forall|k: int| 0 <= k < bounds.len() ==> #[trigger] bounds[k] == k
}

/// From `from` on, the matches are the first occurrence and then those behind
/// its end.
pub proof fn lemma_match_starts_skip(hay: Seq<char>, needle: Seq<char>, from: int)
    requires
        0 <= from,
        needle.len() > 0,
    ensures
        match first_occurrence(hay, needle, from) {
            Some(p) => match_starts(hay, needle, from) == seq![p] + match_starts(
                hay,
                needle,
                p + needle.len(),
            ),
            None => match_starts(hay, needle, from) == Seq::<int>::empty(),
        },
    decreases hay.len() + 1 - from,
{
    if from + needle.len() > hay.len() {
    } else if occurs_at(hay, needle, from) {
    } else {
        lemma_match_starts_skip(hay, needle, from + 1);
    }
}

proof fn lemma_holder_one_to_one(bounds: Seq<int>, p: int, k: int)
    requires
        is_one_to_one(bounds),
        0 <= k <= p,
        p + 1 < bounds.len(),
    ensures
        holder(bounds, p, k) == p,
    decreases p - k,
{
    assert(bounds[k + 1] == k + 1);
    if k < p {
        lemma_holder_one_to_one(bounds, p, k + 1);
    }
}

proof fn lemma_closer_one_to_one(bounds: Seq<int>, q: int, k: int)
    requires
        is_one_to_one(bounds),
        0 <= k <= q,
        q + 1 <= bounds.len(),
    ensures
        closer(bounds, q, k) == q,
    decreases q - k,
{
    assert(bounds[k] == k);
    if k < q {
        lemma_closer_one_to_one(bounds, q, k + 1);
    }
}

/// Where every character takes one place in the folded copy, the parts to
/// highlight are the occurrences of the needle in the folded copy, taken from
/// the left without overlap, each as long as the needle.
pub proof fn lemma_spans_are_occurrences(
    hay: Seq<char>,
    needle: Seq<char>,
    bounds: Seq<int>,
    from: int,
)
    requires
        is_one_to_one(bounds),
        bounds.len() == hay.len() + 1,
        0 <= from,
    ensures
        line_spans(hay, needle, bounds, from) == spans_at(
            match_starts(hay, needle, from),
            needle.len() as int,
        ),
    decreases bounds.len() - from,
{
    let n = needle.len() as int;
    let here = line_spans(hay, needle, bounds, from);
    let starts = match_starts(hay, needle, from);
    if needle.len() == 0 || from + 1 >= bounds.len() {
        assert(here =~= spans_at(starts, n));
    } else {
        assert(bounds[from] == from);
        lemma_first_occurrence(hay, needle, from);
        lemma_match_starts_skip(hay, needle, from);
        match first_occurrence(hay, needle, from) {
            None => {
                assert(here =~= spans_at(starts, n));
            },
            Some(p) => {
                lemma_holder_one_to_one(bounds, p, from);
                lemma_closer_one_to_one(bounds, p + n, p + 1);
                let rest = match_starts(hay, needle, p + n);
                lemma_spans_are_occurrences(hay, needle, bounds, p + n);
                assert(here == seq![(p, p + n)] + line_spans(hay, needle, bounds, p + n));
                assert(starts == seq![p] + rest);
                assert(seq![(p, p + n)] + spans_at(rest, n) =~= spans_at(starts, n));
            },
        }
    }
}

/// Highlighting changes nothing where the needle is empty or the folded copy
/// does not hold it.
pub proof fn lemma_no_match_unchanged(
    line: Seq<char>,
    hay: Seq<char>,
    needle: Seq<char>,
    bounds: Seq<int>,
    out: Seq<char>,
)
    requires
        needle.len() == 0 || !occurs(hay, needle),
        is_highlighted(line, hay, needle, bounds, out),
    ensures
        out == line,
{
    let spans = line_spans(hay, needle, bounds, 0);
    if needle.len() > 0 && 1 < bounds.len() {
        if bounds[0] >= 0 {
            lemma_first_occurrence(hay, needle, bounds[0]);
            if first_occurrence(hay, needle, bounds[0]) is Some {
                let p = first_occurrence(hay, needle, bounds[0])->0;
                assert(occurs(hay, needle)) by {
                    lemma_found_iff_occurs(hay, needle);
                    assert(occurs_at(hay, needle, p));
                }
            }
        }
    }
    assert(spans.len() == 0);
    let paints = choose|paints: Seq<Seq<char>>| #[trigger]
        are_red_renderings(line, spans, paints) && out == spliced(line, spans, paints);
    assert(line.subrange(0, line.len() as int) =~= line);
    assert(out =~= line);
}

/// Calls `Colorize::red` on `s` and renders the result with `to_string`.
/// Whether the crate colours at all depends on the environment and on the
/// terminal, so the contract allows both outcomes: the text as it is, or the
/// text between the escape sequences for red and for reset, with red
/// switched on again behind each reset sequence inside the text.
#[verifier::external_body]
fn paint_red(s: &str) -> (r: String)
    ensures
        is_red_rendering(s@, r@),
{
    s.red().to_string()
}

/// Where each character of `line` begins in its folded copy of `folded_len`
/// characters, and where that copy ends; `None` where the copy is not the
/// line folded character by character.
pub fn fold_map(line: &str, folded_len: usize, case_insensitive: bool) -> (r: Option<Vec<usize>>)
    ensures
        r is Some <==> fills(line@, case_insensitive, folded_len as int),
        r matches Some(bounds) ==> positions(bounds@) == fold_bounds(line@, case_insensitive),
{
    let n: usize = line.unicode_len();
    let mut bounds: Vec<usize> = Vec::new();
    bounds.push(0);
    let mut total: usize = 0;
    let mut k: usize = 0;
    while k < n
        invariant
            n == line@.len(),
            k <= n,
            bounds@.len() == k + 1,
            total == fold_bound(line@, case_insensitive, k as int),
            total <= folded_len,
            forall|j: int|
                0 <= j <= k ==> (#[trigger] bounds@[j]) as int == fold_bound(
                    line@,
                    case_insensitive,
                    j,
                ),
            forall|i: int|
                0 <= i < k ==> char_width(#[trigger] line@[i], case_insensitive) >= 1,
        decreases n - k,
    {
        let width: usize = if case_insensitive {
            let piece: &str = line.substring_char(k, k + 1);
            let low: String = fold_case(piece, true);
            proof {
                assert(piece@ =~= seq![line@[k as int]]);
            }
            low.as_str().unicode_len()
        } else {
            1
        };
        assert(width == char_width(line@[k as int], case_insensitive));
        if width == 0 {
            return None;
        }
        if width > folded_len - total {
            proof {
                lemma_fold_bound_grows(line@, case_insensitive, k + 1, n as int);
            }
            return None;
        }
        total = total + width;
        bounds.push(total);
        k += 1;
    }
    if total != folded_len {
        return None;
    }
    proof {
        assert(positions(bounds@) =~= fold_bounds(line@, case_insensitive));
    }
    Some(bounds)
}

/// The parts of the line to highlight for the occurrences of `needle` in the
/// folded copy `hay`, from the left and without overlap.
pub fn match_spans(hay: &Vec<char>, needle: &Vec<char>, bounds: &Vec<usize>) -> (spans: Vec<
    (usize, usize),
>)
    ensures
        spans_of(spans@) == line_spans(hay@, needle@, positions(bounds@), 0),
{
    let ghost marks = positions(bounds@);
    let mut spans: Vec<(usize, usize)> = Vec::new();
    let width: usize = needle.len();
    let len: usize = bounds.len();
    if width == 0 || len == 0 {
        assert(spans_of(spans@) =~= line_spans(hay@, needle@, marks, 0));
        return spans;
    }
    let last: usize = len - 1;
    let mut i: usize = 0;
    loop
        invariant
            marks == positions(bounds@),
            width == needle@.len(),
            width > 0,
            len == bounds@.len(),
            last == len - 1,
            i <= last,
            line_spans(hay@, needle@, marks, 0) == spans_of(spans@) + line_spans(
                hay@,
                needle@,
                marks,
                i as int,
            ),
        decreases last - i,
    {
        if i >= last {
            assert(spans_of(spans@) + Seq::<(int, int)>::empty() =~= spans_of(spans@));
            return spans;
        }
        proof {
            assert(marks[i as int] == bounds@[i as int] as int);
            lemma_first_occurrence(hay@, needle@, marks[i as int]);
        }
        match find_from(hay, needle, bounds[i]) {
            None => {
                assert(spans_of(spans@) + Seq::<(int, int)>::empty() =~= spans_of(spans@));
                return spans;
            },
            Some(p) => {
                let mut a: usize = i;
                while a < last && bounds[a + 1] <= p
                    invariant
                        marks == positions(bounds@),
                        len == bounds@.len(),
                        last == len - 1,
                        i <= a <= last,
                        holder(marks, p as int, i as int) == holder(marks, p as int, a as int),
                    decreases last - a,
                {
                    proof {
                        assert(marks[a + 1] == bounds@[a + 1] as int);
                    }
                    a += 1;
                }
                proof {
                    if a < last {
                        assert(marks[a + 1] == bounds@[a + 1] as int);
                    }
                    assert(holder(marks, p as int, a as int) == a);
                }
                if a >= last {
                    proof {
                        assert(closer(marks, p + width, a + 1) == a + 1);
                        assert(spans_of(spans@) + Seq::<(int, int)>::empty() =~= spans_of(
                            spans@,
                        ));
                    }
                    return spans;
                }
                let reach: usize = hay.len();
                assert(p + width <= reach);
                let q: usize = p + width;
                let mut b: usize = a + 1;
                while b < last && bounds[b] < q
                    invariant
                        marks == positions(bounds@),
                        len == bounds@.len(),
                        last == len - 1,
                        a + 1 <= b <= last,
                        closer(marks, q as int, a + 1) == closer(marks, q as int, b as int),
                    decreases last - b,
                {
                    proof {
                        assert(marks[b as int] == bounds@[b as int] as int);
                    }
                    b += 1;
                }
                proof {
                    assert(marks[b as int] == bounds@[b as int] as int);
                    assert(closer(marks, q as int, b as int) == b);
                }
                let ghost before = spans_of(spans@);
                spans.push((a, b));
                proof {
                    let rest = line_spans(hay@, needle@, marks, b as int);
                    assert(line_spans(hay@, needle@, marks, i as int) == seq![
                        (a as int, b as int),
                    ] + rest);
                    assert(spans_of(spans@) =~= before + seq![(a as int, b as int)]);
                    assert(before + (seq![(a as int, b as int)] + rest) =~= spans_of(spans@)
                        + rest);
                }
                i = b;
            },
        }
    }
}

/// `line` with each span replaced by the entry of `paints` with the same
/// number.
pub fn splice(line: &str, spans: &Vec<(usize, usize)>, paints: &Vec<String>) -> (out: String)
    requires
        paints@.len() == spans@.len(),
        spans_in_order(spans_of(spans@), line@.len() as int),
    ensures
        out@ == spliced(line@, spans_of(spans@), texts(paints@)),
{
    let ghost at = spans_of(spans@);
    let ghost with = texts(paints@);
    let total: usize = line.unicode_len();
    let mut out: String = String::new();
    let mut done: usize = 0;
    let mut k: usize = 0;
    while k < spans.len()
        invariant
            at == spans_of(spans@),
            with == texts(paints@),
            paints@.len() == spans@.len(),
            spans_in_order(at, line@.len() as int),
            total == line@.len(),
            k <= spans@.len(),
            done == span_end(at, k as int),
            done <= total,
            out@ == spliced_prefix(line@, at, with, k as nat),
        decreases spans@.len() - k,
    {
        let start: usize = spans[k].0;
        let end: usize = spans[k].1;
        proof {
            assert(at[k as int] == (start as int, end as int));
            assert(with[k as int] == paints@[k as int]@);
        }
        out.append(line.substring_char(done, start));
        out.append(paints[k].as_str());
        done = end;
        k += 1;
    }
    out.append(line.substring_char(done, total));
    out
}

/// `line` with each part highlighted that an occurrence of `needle` in
/// `haystack` maps back to. `haystack` is the copy of the line in which the
/// matches are looked for, and `bounds` says where each character of the line
/// begins in it.
pub fn highlight_folded(line: &str, haystack: &str, needle: &str, bounds: &Vec<usize>) -> (out:
    String)
    requires
        bounds@.len() == line@.len() + 1,
    ensures
        is_highlighted(line@, haystack@, needle@, positions(bounds@), out@),
{
    let hay: Vec<char> = chars_of(haystack);
    let pat: Vec<char> = chars_of(needle);
    let spans: Vec<(usize, usize)> = match_spans(&hay, &pat, bounds);
    let ghost at = spans_of(spans@);
    proof {
        lemma_line_spans_in_order(hay@, pat@, positions(bounds@));
    }
    let mut paints: Vec<String> = Vec::new();
    let mut k: usize = 0;
    while k < spans.len()
        invariant
            at == spans_of(spans@),
            spans_in_order(at, line@.len() as int),
            k <= spans@.len(),
            paints@.len() == k,
            forall|j: int|
                0 <= j < k ==> is_red_rendering(
                    line@.subrange(at[j].0, at[j].1),
                    #[trigger] texts(paints@)[j],
                ),
        decreases spans@.len() - k,
    {
        let start: usize = spans[k].0;
        let end: usize = spans[k].1;
        proof {
            assert(at[k as int] == (start as int, end as int));
        }
        let ghost before = texts(paints@);
        let painted: String = paint_red(line.substring_char(start, end));
        paints.push(painted);
        proof {
            assert(texts(paints@) =~= before.push(painted@));
        }
        k += 1;
    }
    let out: String = splice(line, &spans, &paints);
    proof {
        assert(are_red_renderings(line@, at, texts(paints@)));
    }
    out
}

/// `line` with each occurrence of `pattern` highlighted. When case is
/// ignored, line and pattern are folded, the matches are looked for in the
/// folded line, and the parts of the line that they come from are
/// highlighted in their own case. The line comes back unchanged where the
/// pattern is empty, where nothing matches, and where the folded line is not
/// the line folded character by character, so that no place in it can be
/// mapped back.
pub fn highlight(line: &str, pattern: &str, case_insensitive: bool) -> (out: String)
    ensures
        pattern@.len() > 0 && folds_by_character(line@, case_insensitive) ==> is_highlighted(
            line@,
            folded(line@, case_insensitive),
            folded(pattern@, case_insensitive),
            fold_bounds(line@, case_insensitive),
            out@,
        ),
        !folds_by_character(line@, case_insensitive) ==> out@ == line@,
        pattern@.len() == 0 || !occurs(
            folded(line@, case_insensitive),
            folded(pattern@, case_insensitive),
        ) ==> out@ == line@,
{
    if pattern.is_empty() {
        return line.to_owned();
    }
    let haystack: String = fold_case(line, case_insensitive);
    let needle: String = fold_case(pattern, case_insensitive);
    let folded_len: usize = haystack.as_str().unicode_len();
    match fold_map(line, folded_len, case_insensitive) {
        None => line.to_owned(),
        Some(bounds) => {
            proof {
                assert(bounds@.len() == positions(bounds@).len());
            }
            let out: String = highlight_folded(line, haystack.as_str(), needle.as_str(), &bounds);
            proof {
                if !occurs(haystack@, needle@) {
                    lemma_no_match_unchanged(
                        line@,
                        haystack@,
                        needle@,
                        positions(bounds@),
                        out@,
                    );
                }
            }
            out
        },
    }
}

} // verus!
