//! The run configuration and the interpreter of command-line tokens.

use crate::text::{chars_of, texts};
use vstd::prelude::*;

verus! {

/// What one run was asked to do.
#[derive(Debug, Clone)]
pub struct Config {
    /// `-i`: ignore case when matching.
    pub case_insensitive: bool,
    /// `-n`: prefix each emitted line with its number.
    pub show_line_numbers: bool,
    /// `-v`: emit the lines that do not match.
    pub invert_match: bool,
    /// `-r`: walk directory targets.
    pub recursive: bool,
    /// `-f`: prefix each emitted line with its file's path.
    pub show_filenames: bool,
    /// `-c`: highlight the matches.
    pub colored: bool,
    /// `-h`, `--help`: show the usage text.
    pub help: bool,
    /// The literal text to search for.
    pub pattern: String,
    /// The files or directories to search, in the order given.
    pub targets: Vec<String>,
}

impl Default for Config {
    fn default() -> (cfg: Config)
        ensures
            !cfg.case_insensitive,
            !cfg.show_line_numbers,
            !cfg.invert_match,
            !cfg.recursive,
            !cfg.show_filenames,
            !cfg.colored,
            !cfg.help,
            cfg.pattern@.len() == 0,
            cfg.targets@.len() == 0,
    {
        Config {
            case_insensitive: false,
            show_line_numbers: false,
            invert_match: false,
            recursive: false,
            show_filenames: false,
            colored: false,
            help: false,
            pattern: String::new(),
            targets: Vec::new(),
        }
    }
}

/// A token that is read as a cluster of one-letter flags: a dash and at
/// least one more character. `-h` and `--help` are such tokens.
pub open spec fn is_flag_cluster(t: Seq<char>) -> bool {
    t.len() >= 2 && t[0] == '-'
}

/// Some character of `t` after the first, and before index `upto`, is `c`.
pub open spec fn seen(t: Seq<char>, upto: int, c: char) -> bool {
    exists|j: int| 1 <= j < upto && j < t.len() && t[j] == c
}

/// `t` is a flag cluster that holds the letter `c`.
pub open spec fn cluster_has(t: Seq<char>, c: char) -> bool {
    is_flag_cluster(t) && seen(t, t.len() as int, c)
}

/// Some token of `args` is a flag cluster that holds the letter `c`.
pub open spec fn flag_given(args: Seq<Seq<char>>, c: char) -> bool {
    exists|i: int| 0 <= i < args.len() && cluster_has(#[trigger] args[i], c)
}

/// The test that tells positional operands from flag clusters.
pub open spec fn operand_test() -> spec_fn(Seq<char>) -> bool {
    |t: Seq<char>| !is_flag_cluster(t)
}

/// The tokens of `args` that are not flag clusters, in order.
pub open spec fn operands(args: Seq<Seq<char>>) -> Seq<Seq<char>> {
    args.filter(operand_test())
}

/// `cfg` is what the tokens `args` ask for: each switch is on exactly when
/// some flag cluster holds its letter, the first operand is the pattern and
/// the operands after it are the targets.
pub open spec fn is_parse_of(args: Seq<Seq<char>>, cfg: Config) -> bool {
    &&& cfg.case_insensitive == flag_given(args, 'i')
    &&& cfg.show_line_numbers == flag_given(args, 'n')
    &&& cfg.invert_match == flag_given(args, 'v')
    &&& cfg.recursive == flag_given(args, 'r')
    &&& cfg.show_filenames == flag_given(args, 'f')
    &&& cfg.colored == flag_given(args, 'c')
    &&& cfg.help == flag_given(args, 'h')
    &&& if operands(args).len() == 0 {
        cfg.pattern@.len() == 0 && cfg.targets@.len() == 0
    } else {
        cfg.pattern@ == operands(args)[0] && texts(cfg.targets@) == operands(args).skip(1)
    }
}

/// `-h` or `--help`.
pub open spec fn is_help_token(t: Seq<char>) -> bool {
    t == seq!['-', 'h'] || t == seq!['-', '-', 'h', 'e', 'l', 'p']
}

/// A help token is a flag cluster that holds `h` and no other flag letter.
pub proof fn lemma_help_token(t: Seq<char>)
    requires
        is_help_token(t),
    ensures
        cluster_has(t, 'h'),
        !cluster_has(t, 'i'),
        !cluster_has(t, 'n'),
        !cluster_has(t, 'v'),
        !cluster_has(t, 'r'),
        !cluster_has(t, 'f'),
        !cluster_has(t, 'c'),
{
    if t == seq!['-', 'h'] {
        assert(t[1] == 'h');
    } else {
        assert(t[2] == 'h');
    }
}

/// One more token adds its own letters to those given before it.
pub proof fn lemma_flag_given_push(args: Seq<Seq<char>>, t: Seq<char>, c: char)
    ensures
        flag_given(args.push(t), c) == (flag_given(args, c) || cluster_has(t, c)),
{
    let more = args.push(t);
    if flag_given(args, c) {
        let i = choose|i: int| 0 <= i < args.len() && cluster_has(#[trigger] args[i], c);
        assert(more[i] == args[i]);
    }
    if cluster_has(t, c) {
        assert(more[args.len() as int] == t);
    }
    if flag_given(more, c) {
        let i = choose|i: int| 0 <= i < more.len() && cluster_has(#[trigger] more[i], c);
        if i < args.len() {
            assert(more[i] == args[i]);
        }
    }
}

fn help_token(t: &Vec<char>) -> (b: bool)
    ensures
        b == is_help_token(t@),
{
    if t.len() == 2 {
        let b: bool = t[0] == '-' && t[1] == 'h';
        proof {
            if b {
                assert(t@ =~= seq!['-', 'h']);
            }
        }
        b
    } else if t.len() == 6 {
        let b: bool = t[0] == '-' && t[1] == '-' && t[2] == 'h' && t[3] == 'e' && t[4] == 'l'
            && t[5] == 'p';
        proof {
            if b {
                assert(t@ =~= seq!['-', '-', 'h', 'e', 'l', 'p']);
            }
        }
        b
    } else {
        false
    }
}

/// Reads the command-line tokens, the program's name left out, into a
/// configuration. Every list of tokens is accepted: letters that name no
/// flag are passed over.
pub fn parse_args(args: Vec<String>) -> (r: Result<Config, ()>)
    ensures
        r matches Ok(cfg) && is_parse_of(texts(args@), cfg),
{
    let mut cfg = Config::default();
    let mut found: Vec<String> = Vec::new();
    let ghost all = texts(args@);
    let mut i: usize = 0;
    proof {
        assert(all.take(0) =~= Seq::<Seq<char>>::empty());
        assert(all.take(0).filter(operand_test()) =~= Seq::<Seq<char>>::empty()) by {
            reveal(Seq::filter);
        }
        assert(texts(found@) =~= Seq::<Seq<char>>::empty());
    }
    while i < args.len()
        invariant
            i <= args@.len(),
            all == texts(args@),
            cfg.case_insensitive == flag_given(all.take(i as int), 'i'),
            cfg.show_line_numbers == flag_given(all.take(i as int), 'n'),
            cfg.invert_match == flag_given(all.take(i as int), 'v'),
            cfg.recursive == flag_given(all.take(i as int), 'r'),
            cfg.show_filenames == flag_given(all.take(i as int), 'f'),
            cfg.colored == flag_given(all.take(i as int), 'c'),
            cfg.help == flag_given(all.take(i as int), 'h'),
            cfg.pattern@.len() == 0,
            cfg.targets@.len() == 0,
            texts(found@) == operands(all.take(i as int)),
        decreases args@.len() - i,
    {
        let a: &String = &args[i];
        let t: Vec<char> = chars_of(a.as_str());
        let ghost before = all.take(i as int);
        let ghost old_cfg = cfg;
        proof {
            assert(all[i as int] == t@);
            assert(all.take(i + 1) =~= before.push(t@));
            lemma_flag_given_push(before, t@, 'i');
            lemma_flag_given_push(before, t@, 'n');
            lemma_flag_given_push(before, t@, 'v');
            lemma_flag_given_push(before, t@, 'r');
            lemma_flag_given_push(before, t@, 'f');
            lemma_flag_given_push(before, t@, 'c');
            lemma_flag_given_push(before, t@, 'h');
            before.lemma_filter_push(t@, operand_test());
        }
        if help_token(&t) {
            proof {
                lemma_help_token(t@);
            }
            cfg.help = true;
        } else if t.len() >= 2 && t[0] == '-' {
            let mut k: usize = 1;
            while k < t.len()
                invariant
                    1 <= k <= t@.len(),
                    cfg.case_insensitive == (old_cfg.case_insensitive || seen(t@, k as int, 'i')),
                    cfg.show_line_numbers == (old_cfg.show_line_numbers || seen(
                        t@,
                        k as int,
                        'n',
                    )),
                    cfg.invert_match == (old_cfg.invert_match || seen(t@, k as int, 'v')),
                    cfg.recursive == (old_cfg.recursive || seen(t@, k as int, 'r')),
                    cfg.show_filenames == (old_cfg.show_filenames || seen(t@, k as int, 'f')),
                    cfg.colored == (old_cfg.colored || seen(t@, k as int, 'c')),
                    cfg.help == (old_cfg.help || seen(t@, k as int, 'h')),
                    cfg.pattern == old_cfg.pattern,
                    cfg.targets == old_cfg.targets,
                decreases t@.len() - k,
            {
                let ch: char = t[k];
                match ch {
                    'i' => {
                        cfg.case_insensitive = true;
                    },
                    'n' => {
                        cfg.show_line_numbers = true;
                    },
                    'v' => {
                        cfg.invert_match = true;
                    },
                    'r' => {
                        cfg.recursive = true;
                    },
                    'f' => {
                        cfg.show_filenames = true;
                    },
                    'c' => {
                        cfg.colored = true;
                    },
                    'h' => {
                        cfg.help = true;
                    },
                    _ => {},
                }
                k += 1;
            }
        } else {
            found.push(a.clone());
            proof {
                assert(texts(found@) =~= operands(before).push(t@));
            }
        }
        i += 1;
    }
    proof {
        assert(all.take(i as int) =~= all);
    }
    if found.len() > 0 {
        let ghost ops = found@;
        cfg.pattern = found.remove(0);
        cfg.targets = found;
        proof {
            assert(texts(cfg.targets@) =~= texts(ops).skip(1));
        }
    }
    Ok(cfg)
}

} // verus!
