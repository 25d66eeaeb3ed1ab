//! The line scanner: which lines of a file are emitted, and how each is
//! written.

use crate::config::Config;
use crate::highlight::{fold_bounds, folds_by_character, highlight, is_highlighted};
use crate::text::{contains, effective, effective_pattern, folded, occurs};
use crate::text::{lemma_empty_occurs, texts};
use vstd::prelude::*;
use vstd::string::StringExecFns;

verus! {

/// The decimal digit for `d`.
pub open spec fn digit(d: int) -> char {
    if d == 0 {
        '0'
    } else if d == 1 {
        '1'
    } else if d == 2 {
        '2'
    } else if d == 3 {
        '3'
    } else if d == 4 {
        '4'
    } else if d == 5 {
        '5'
    } else if d == 6 {
        '6'
    } else if d == 7 {
        '7'
    } else if d == 8 {
        '8'
    } else {
        '9'
    }
}

/// `n` written in decimal, without leading zeros.
pub open spec fn decimal(n: nat) -> Seq<char>
    decreases n,
{
    if n < 10 {
        seq![digit(n as int)]
    } else {
        decimal(n / 10).push(digit((n % 10) as int))
    }
}

/// What stands between a prefix and what follows it.
pub open spec fn separator() -> Seq<char> {
    seq![':', ' ']
}

/// What stands before the body of an emitted line: the path, if file names
/// are shown, then the line number, if line numbers are shown.
pub open spec fn line_prefix(path: Seq<char>, number: nat, cfg: Config) -> Seq<char> {
    (if cfg.show_filenames {
        path + separator()
    } else {
        Seq::empty()
    }) + (if cfg.show_line_numbers {
        decimal(number) + separator()
    } else {
        Seq::empty()
    })
}

/// Whether a line is emitted: it holds the pattern, or, in inverted mode, it
/// does not. `pattern` is the effective pattern.
pub open spec fn is_emitted(line: Seq<char>, pattern: Seq<char>, cfg: Config) -> bool {
    occurs(folded(line, cfg.case_insensitive), pattern) != cfg.invert_match
}

/// Whether the body of an emitted line is highlighted: colours are asked
/// for, the mode is not inverted, the pattern is not empty, the line holds
/// it, and the folded line is the line folded character by character.
pub open spec fn is_highlighting_due(line: Seq<char>, pattern: Seq<char>, cfg: Config) -> bool {
    &&& cfg.colored
    &&& !cfg.invert_match
    &&& pattern.len() > 0
    &&& occurs(folded(line, cfg.case_insensitive), pattern)
    &&& folds_by_character(line, cfg.case_insensitive)
}

/// `body` is the body of the emitted line: the line with its matches
/// highlighted where highlighting is due, else the line as it was read.
/// `pattern` is the effective pattern; highlighting folds it once more.
pub open spec fn is_body(
    line: Seq<char>,
    pattern: Seq<char>,
    cfg: Config,
    body: Seq<char>,
) -> bool {
    if is_highlighting_due(line, pattern, cfg) {
        is_highlighted(
            line,
            folded(line, cfg.case_insensitive),
            folded(pattern, cfg.case_insensitive),
            fold_bounds(line, cfg.case_insensitive),
            body,
        )
    } else {
        body == line
    }
}

/// `out` is the emitted form of the line: its prefix, then its body.
pub open spec fn is_output_line(
    path: Seq<char>,
    number: nat,
    line: Seq<char>,
    pattern: Seq<char>,
    cfg: Config,
    out: Seq<char>,
) -> bool {
    &&& line_prefix(path, number, cfg).is_prefix_of(out)
    &&& is_body(line, pattern, cfg, out.skip(line_prefix(path, number, cfg).len() as int))
}

/// The indices of the emitted lines among the first `upto` lines, ascending.
pub open spec fn emitted_indices(
    lines: Seq<Seq<char>>,
    pattern: Seq<char>,
    cfg: Config,
    upto: nat,
) -> Seq<int>
    decreases upto,
{
    if upto == 0 {
        Seq::empty()
    } else if is_emitted(lines[upto - 1], pattern, cfg) {
        emitted_indices(lines, pattern, cfg, (upto - 1) as nat).push(upto - 1)
    } else {
        emitted_indices(lines, pattern, cfg, (upto - 1) as nat)
    }
}

/// `out` is what a file with the lines `lines` gives: one entry for each
/// emitted line, in the order of the lines, each numbered by its place in the
/// file, counting from one.
pub open spec fn is_output_of(
    path: Seq<char>,
    lines: Seq<Seq<char>>,
    pattern: Seq<char>,
    cfg: Config,
    upto: nat,
    out: Seq<Seq<char>>,
) -> bool {
    &&& out.len() == emitted_indices(lines, pattern, cfg, upto).len()
    &&& forall|k: int|
        0 <= k < out.len() ==> is_output_line(
            path,
            (emitted_indices(lines, pattern, cfg, upto)[k] + 1) as nat,
            lines[emitted_indices(lines, pattern, cfg, upto)[k]],
            pattern,
            cfg,
            #[trigger] out[k],
        )
}

/// `cfg` with the match inverted.
pub open spec fn inverted(cfg: Config) -> Config {
    Config { invert_match: !cfg.invert_match, ..cfg }
}

/// An index is among the emitted ones exactly when it is the index of an
/// emitted line; the emitted indices ascend, so none stands twice.
pub proof fn lemma_emitted_indices(
    lines: Seq<Seq<char>>,
    pattern: Seq<char>,
    cfg: Config,
    upto: nat,
)
    ensures
        forall|i: int|
            emitted_indices(lines, pattern, cfg, upto).contains(i) <==> 0 <= i < upto
                && is_emitted(lines[i], pattern, cfg),
        forall|a: int, b: int|
            0 <= a < b < emitted_indices(lines, pattern, cfg, upto).len() ==> emitted_indices(
                lines,
                pattern,
                cfg,
                upto,
            )[a] < emitted_indices(lines, pattern, cfg, upto)[b],
    decreases upto,
{
    let here = emitted_indices(lines, pattern, cfg, upto);
    if upto == 0 {
    } else {
        let before = emitted_indices(lines, pattern, cfg, (upto - 1) as nat);
        lemma_emitted_indices(lines, pattern, cfg, (upto - 1) as nat);
        if is_emitted(lines[upto - 1], pattern, cfg) {
            assert(here == before.push(upto - 1));
            assert(here[here.len() - 1] == upto - 1);
            assert forall|i: int| here.contains(i) <==> 0 <= i < upto && is_emitted(
                lines[i],
                pattern,
                cfg,
            ) by {
                if here.contains(i) {
                    let k = choose|k: int| 0 <= k < here.len() && here[k] == i;
                    if k < before.len() {
                        assert(before[k] == i);
                        assert(before.contains(i));
                    }
                }
                if 0 <= i < upto && is_emitted(lines[i], pattern, cfg) {
                    if i == upto - 1 {
                        assert(here[here.len() - 1] == i);
                    } else {
                        assert(before.contains(i));
                        let k = choose|k: int| 0 <= k < before.len() && before[k] == i;
                        assert(here[k] == i);
                    }
                }
            }
            assert forall|a: int, b: int| 0 <= a < b < here.len() implies here[a] < here[b] by {
                assert(here[a] == before[a]);
                assert(before.contains(before[a]));
                if b < before.len() {
                    assert(here[b] == before[b]);
                }
            }
        } else {
            assert(here == before);
        }
    }
}

/// Inverting the match emits exactly the lines that were not emitted
/// before, and inverting twice gives the first selection again.
pub proof fn lemma_invert_is_complement(
    lines: Seq<Seq<char>>,
    pattern: Seq<char>,
    cfg: Config,
)
    ensures
        forall|i: int|
            0 <= i < lines.len() ==> (emitted_indices(
                lines,
                pattern,
                inverted(cfg),
                lines.len(),
            ).contains(i) <==> !emitted_indices(lines, pattern, cfg, lines.len()).contains(i)),
        inverted(inverted(cfg)) == cfg,
{
    lemma_emitted_indices(lines, pattern, cfg, lines.len());
    lemma_emitted_indices(lines, pattern, inverted(cfg), lines.len());
}

/// With the empty pattern every line is emitted, and in inverted mode none.
pub proof fn lemma_empty_pattern_emits(lines: Seq<Seq<char>>, cfg: Config)
    requires
        cfg.pattern@.len() == 0,
    ensures
        effective(cfg.pattern@, cfg.case_insensitive).len() == 0,
        forall|i: int|
            0 <= i < lines.len() ==> (emitted_indices(
                lines,
                effective(cfg.pattern@, cfg.case_insensitive),
                cfg,
                lines.len(),
            ).contains(i) <==> !cfg.invert_match),
{
    let pattern = effective(cfg.pattern@, cfg.case_insensitive);
    lemma_emitted_indices(lines, pattern, cfg, lines.len());
    assert(pattern =~= Seq::<char>::empty());
    assert forall|i: int| 0 <= i < lines.len() implies (emitted_indices(
        lines,
        pattern,
        cfg,
        lines.len(),
    ).contains(i) <==> !cfg.invert_match) by {
        lemma_empty_occurs(folded(lines[i], cfg.case_insensitive));
    }
}

/// The body of an emitted line is the line as it was read whenever colours
/// are not asked for, the mode is inverted, or the line does not hold the
/// pattern.
pub proof fn lemma_body_unchanged(
    line: Seq<char>,
    pattern: Seq<char>,
    cfg: Config,
    body: Seq<char>,
)
    requires
        is_body(line, pattern, cfg, body),
        !cfg.colored || cfg.invert_match || !occurs(folded(line, cfg.case_insensitive), pattern),
    ensures
        body == line,
{
}

/// Where no highlighting is due, an emitted line is its prefix and then the
/// line as it was read.
pub proof fn lemma_plain_output_line(
    path: Seq<char>,
    number: nat,
    line: Seq<char>,
    pattern: Seq<char>,
    cfg: Config,
    out: Seq<char>,
)
    requires
        is_output_line(path, number, line, pattern, cfg, out),
        !is_highlighting_due(line, pattern, cfg),
    ensures
        out == line_prefix(path, number, cfg) + line,
{
    let lead = line_prefix(path, number, cfg);
    assert(out =~= lead + out.skip(lead.len() as int));
}

fn digit_text(d: usize) -> (r: &'static str)
    requires
        d < 10,
    ensures
        r@ == seq![digit(d as int)],
{
    proof {
        reveal_strlit("0");
        reveal_strlit("1");
        reveal_strlit("2");
        reveal_strlit("3");
        reveal_strlit("4");
        reveal_strlit("5");
        reveal_strlit("6");
        reveal_strlit("7");
        reveal_strlit("8");
        reveal_strlit("9");
    }
    let r: &'static str = if d == 0 {
        "0"
    } else if d == 1 {
        "1"
    } else if d == 2 {
        "2"
    } else if d == 3 {
        "3"
    } else if d == 4 {
        "4"
    } else if d == 5 {
        "5"
    } else if d == 6 {
        "6"
    } else if d == 7 {
        "7"
    } else if d == 8 {
        "8"
    } else {
        "9"
    };
    assert(r@ =~= seq![digit(d as int)]);
    r
}

/// `n` written in decimal.
pub fn decimal_text(n: usize) -> (r: String)
    ensures
        r@ == decimal(n as nat),
    decreases n,
{
    if n < 10 {
        digit_text(n).to_owned()
    } else {
        let mut r: String = decimal_text(n / 10);
        r.append(digit_text(n % 10));
        r
    }
}

/// What stands before the body of an emitted line.
pub fn prefix_text(path: &str, number: usize, cfg: &Config) -> (r: String)
    ensures
        r@ == line_prefix(path@, number as nat, *cfg),
{
    proof {
        reveal_strlit(": ");
    }
    let mut r: String = String::new();
    if cfg.show_filenames {
        r.append(path);
        r.append(": ");
    }
    if cfg.show_line_numbers {
        let digits: String = decimal_text(number);
        r.append(digits.as_str());
        r.append(": ");
    }
    proof {
        assert(": "@ =~= separator());
        assert(r@ =~= line_prefix(path@, number as nat, *cfg));
    }
    r
}

/// The report for a file that could not be read: the path, and why.
pub open spec fn failure_report(path: Seq<char>, reason: Seq<char>) -> Seq<char> {
    "Failed to read "@ + path + separator() + reason
}

/// The line that reports a file that could not be read.
pub fn read_failure(path: &str, reason: &str) -> (r: String)
    ensures
        r@ == failure_report(path@, reason@),
{
    proof {
        reveal_strlit(": ");
    }
    let mut r: String = "Failed to read ".to_owned();
    r.append(path);
    r.append(": ");
    r.append(reason);
    proof {
        assert(": "@ =~= separator());
    }
    r
}

/// Decides whether the line with the number `number` of the file at `path` is
/// emitted, and writes it if so. `pattern` is the effective pattern, which
/// the caller computes once for a file.
pub fn scan_line(path: &str, number: usize, line: &str, pattern: &str, cfg: &Config) -> (r: Option<
    String,
>)
    ensures
        r is Some <==> is_emitted(line@, pattern@, *cfg),
        r matches Some(out) ==> is_output_line(
            path@,
            number as nat,
            line@,
            pattern@,
            *cfg,
            out@,
        ),
{
    let is_match: bool = contains(line, pattern, cfg.case_insensitive);
    let pass: bool = if cfg.invert_match {
        !is_match
    } else {
        is_match
    };
    if !pass {
        return None;
    }
    let mut out: String = prefix_text(path, number, cfg);
    let ghost lead = out@;
    if cfg.colored && is_match && !cfg.invert_match {
        let body: String = highlight(line, pattern, cfg.case_insensitive);
        out.append(body.as_str());
        proof {
            assert(out@.skip(lead.len() as int) =~= body@);
        }
    } else {
        out.append(line);
        proof {
            assert(out@.skip(lead.len() as int) =~= line@);
        }
    }
    Some(out)
}

/// Scans the lines of the file at `path` in order and returns what is
/// emitted for them.
pub fn scan_lines(path: &str, lines: &Vec<String>, cfg: &Config) -> (out: Vec<String>)
    ensures
        is_output_of(
            path@,
            texts(lines@),
            effective(cfg.pattern@, cfg.case_insensitive),
            *cfg,
            lines@.len(),
            texts(out@),
        ),
{
    let pattern: String = effective_pattern(cfg.pattern.as_str(), cfg.case_insensitive);
    let ghost all = texts(lines@);
    let mut out: Vec<String> = Vec::new();
    let mut i: usize = 0;
    while i < lines.len()
        invariant
            i <= lines@.len(),
            all == texts(lines@),
            pattern@ == effective(cfg.pattern@, cfg.case_insensitive),
            is_output_of(path@, all, pattern@, *cfg, i as nat, texts(out@)),
        decreases lines@.len() - i,
    {
        let ghost before = texts(out@);
        let ghost picked = emitted_indices(all, pattern@, *cfg, i as nat);
        proof {
            assert(all[i as int] == lines@[i as int]@);
        }
        match scan_line(path, i + 1, lines[i].as_str(), pattern.as_str(), cfg) {
            Some(text) => {
                out.push(text);
                proof {
                    let now = texts(out@);
                    let chosen = emitted_indices(all, pattern@, *cfg, (i + 1) as nat);
                    assert(chosen == picked.push(i as int));
                    assert(now =~= before.push(text@));
                    assert forall|k: int| 0 <= k < now.len() implies is_output_line(
                        path@,
                        (chosen[k] + 1) as nat,
                        all[chosen[k]],
                        pattern@,
                        *cfg,
                        #[trigger] now[k],
                    ) by {
                        if k < before.len() {
                            assert(now[k] == before[k]);
                            assert(chosen[k] == picked[k]);
                        }
                    }
                }
            },
            None => {
                proof {
                    assert(emitted_indices(all, pattern@, *cfg, (i + 1) as nat) == picked);
                }
            },
        }
        i += 1;
    }
    out
}

} // verus!
