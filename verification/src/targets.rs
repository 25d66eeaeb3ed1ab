//! The target expander: from the targets of a run to the files to scan.

use crate::text::texts;
use vstd::prelude::*;

verus! {

/// One entry that a walk of a directory came by.
#[derive(Debug, Clone)]
pub struct WalkEntry {
    /// The entry's path.
    pub path: String,
    /// Whether the entry is a regular file.
    pub is_file: bool,
}

/// A target together with what the file system said of it.
#[derive(Debug, Clone)]
pub struct Target {
    /// The path as it was given.
    pub path: String,
    /// The entries of a walk of the path, in the order of the walk, where the
    /// path is a directory; `None` where it is not, or was not looked at.
    pub walk: Option<Vec<WalkEntry>>,
}

/// The paths of the regular files among the first `upto` entries, in order.
pub open spec fn files_among(entries: Seq<WalkEntry>, upto: nat) -> Seq<Seq<char>>
    decreases upto,
{
    if upto == 0 {
        Seq::empty()
    } else if entries[upto - 1].is_file {
        files_among(entries, (upto - 1) as nat).push(entries[upto - 1].path@)
    } else {
        files_among(entries, (upto - 1) as nat)
    }
}

/// The files that one target stands for: in recursive mode the regular files
/// of its walk, where it is a directory; else the target itself.
pub open spec fn expansion_of(target: Target, recursive: bool) -> Seq<Seq<char>> {
    if recursive && target.walk is Some {
        files_among(target.walk->0@, target.walk->0@.len())
    } else {
        seq![target.path@]
    }
}

/// The files that the first `upto` targets stand for, in order.
pub open spec fn expansion(targets: Seq<Target>, recursive: bool, upto: nat) -> Seq<Seq<char>>
    decreases upto,
{
    if upto == 0 {
        Seq::empty()
    } else {
        expansion(targets, recursive, (upto - 1) as nat) + expansion_of(
            targets[upto - 1],
            recursive,
        )
    }
}

/// The paths of the targets, in order.
pub open spec fn target_paths(targets: Seq<Target>) -> Seq<Seq<char>> {
    Seq::new(targets.len(), |i: int| targets[i].path@)
}

/// Without recursion every target stands for itself.
pub proof fn lemma_plain_expansion(targets: Seq<Target>, upto: nat)
    requires
        upto <= targets.len(),
    ensures
        expansion(targets, false, upto) == target_paths(targets).take(upto as int),
    decreases upto,
{
    if upto == 0 {
        assert(target_paths(targets).take(0) =~= Seq::<Seq<char>>::empty());
    } else {
        lemma_plain_expansion(targets, (upto - 1) as nat);
        assert(target_paths(targets).take(upto as int) =~= target_paths(targets).take(upto - 1)
            + seq![targets[upto - 1].path@]);
    }
}

/// A path is among the files of a walk exactly when some entry of the walk
/// is a regular file with that path.
pub proof fn lemma_files_among(entries: Seq<WalkEntry>, upto: nat, path: Seq<char>)
    requires
        upto <= entries.len(),
    ensures
        files_among(entries, upto).contains(path) <==> exists|i: int|
            0 <= i < upto && (#[trigger] entries[i]).is_file && entries[i].path@ == path,
    decreases upto,
{
    let here = files_among(entries, upto);
    if upto == 0 {
    } else {
        let before = files_among(entries, (upto - 1) as nat);
        lemma_files_among(entries, (upto - 1) as nat, path);
        if entries[upto - 1].is_file {
            assert(here == before.push(entries[upto - 1].path@));
            if here.contains(path) {
                let k = choose|k: int| 0 <= k < here.len() && here[k] == path;
                if k < before.len() {
                    assert(before[k] == path);
                    assert(before.contains(path));
                } else {
                    assert(entries[upto - 1].path@ == path);
                }
            }
            if exists|i: int|
                0 <= i < upto && (#[trigger] entries[i]).is_file && entries[i].path@ == path {
                let i = choose|i: int|
                    0 <= i < upto && (#[trigger] entries[i]).is_file && entries[i].path@ == path;
                if i == upto - 1 {
                    assert(here[here.len() - 1] == path);
                } else {
                    assert(before.contains(path));
                    let k = choose|k: int| 0 <= k < before.len() && before[k] == path;
                    assert(here[k] == path);
                }
            }
        } else {
            assert(here == before);
        }
    }
}

/// The walk of a directory gives one file for each of its entries that is a
/// regular file, no more and no fewer.
pub proof fn lemma_files_among_len(entries: Seq<WalkEntry>, upto: nat)
    requires
        upto <= entries.len(),
    ensures
        files_among(entries, upto).len() == entries.take(upto as int).filter(
            |e: WalkEntry| e.is_file,
        ).len(),
    decreases upto,
{
    let test = |e: WalkEntry| e.is_file;
    if upto == 0 {
        assert(entries.take(0) =~= Seq::<WalkEntry>::empty());
        assert(entries.take(0).filter(test).len() == 0) by {
            reveal(Seq::filter);
        }
    } else {
        lemma_files_among_len(entries, (upto - 1) as nat);
        assert(entries.take(upto as int) =~= entries.take(upto - 1).push(entries[upto - 1]));
        entries.take(upto - 1).lemma_filter_push(entries[upto - 1], test);
    }
}

/// Appends to `files` the paths of the regular files of a walk.
fn push_files(files: &mut Vec<String>, entries: &Vec<WalkEntry>)
    ensures
        texts(final(files)@) == texts(old(files)@) + files_among(
            entries@,
            entries@.len(),
        ),
{
    let ghost start = texts(files@);
    let mut j: usize = 0;
    proof {
        assert(start + files_among(entries@, 0) =~= start);
    }
    while j < entries.len()
        invariant
            j <= entries@.len(),
            texts(files@) == start + files_among(entries@, j as nat),
        decreases entries@.len() - j,
    {
        let ghost before = texts(files@);
        if entries[j].is_file {
            files.push(entries[j].path.clone());
            proof {
                assert(texts(files@) =~= before.push(entries@[j as int].path@));
                assert(start + files_among(entries@, j as nat).push(entries@[j as int].path@)
                    =~= (start + files_among(entries@, j as nat)).push(
                    entries@[j as int].path@,
                ));
            }
        }
        j += 1;
    }
}

/// The files to scan for the given targets, in the order of the targets. In
/// recursive mode a target that is a directory is replaced by the regular
/// files of its walk, in the order of the walk; every other target, and every
/// target without recursion, is passed on as it is.
pub fn expand_targets(targets: &Vec<Target>, recursive: bool) -> (files: Vec<String>)
    ensures
        texts(files@) == expansion(targets@, recursive, targets@.len()),
        !recursive ==> texts(files@) == target_paths(targets@),
{
    let mut files: Vec<String> = Vec::new();
    let mut i: usize = 0;
    proof {
        assert(texts(files@) =~= expansion(targets@, recursive, 0));
    }
    while i < targets.len()
        invariant
            i <= targets@.len(),
            texts(files@) == expansion(targets@, recursive, i as nat),
        decreases targets@.len() - i,
    {
        let ghost before = texts(files@);
        let target: &Target = &targets[i];
        if recursive {
            match &target.walk {
                Some(entries) => {
                    push_files(&mut files, entries);
                },
                None => {
                    files.push(target.path.clone());
                    proof {
                        assert(texts(files@) =~= before + seq![target.path@]);
                    }
                },
            }
        } else {
            files.push(target.path.clone());
            proof {
                assert(texts(files@) =~= before + seq![target.path@]);
            }
        }
        i += 1;
    }
    proof {
        if !recursive {
            lemma_plain_expansion(targets@, targets@.len());
            assert(target_paths(targets@).take(targets@.len() as int) =~= target_paths(targets@));
        }
    }
    files
}

/// Where a file to scan comes from: a target itself, or an entry of its walk.
#[derive(Debug, Clone, Copy, PartialEq, Eq)]
pub struct Source {
    /// The index of the target.
    pub target: usize,
    /// The index of the entry in the target's walk; `None` for the target
    /// itself.
    pub entry: Option<usize>,
}

/// The regular files among the first `upto` entries of the walk of target
/// `target`, as sources, in order.
pub open spec fn walk_sources(target: usize, entries: Seq<WalkEntry>, upto: nat) -> Seq<Source>
    decreases upto,
{
    if upto == 0 {
        Seq::empty()
    } else if entries[upto - 1].is_file {
        walk_sources(target, entries, (upto - 1) as nat).push(
            Source { target, entry: Some((upto - 1) as usize) },
        )
    } else {
        walk_sources(target, entries, (upto - 1) as nat)
    }
}

/// The sources of the files that the first `upto` targets stand for, in
/// order.
pub open spec fn sources(targets: Seq<Target>, recursive: bool, upto: nat) -> Seq<Source>
    decreases upto,
{
    if upto == 0 {
        Seq::empty()
    } else {
        let target = targets[upto - 1];
        sources(targets, recursive, (upto - 1) as nat) + (if recursive && target.walk is Some {
            walk_sources((upto - 1) as usize, target.walk->0@, target.walk->0@.len())
        } else {
            seq![Source { target: (upto - 1) as usize, entry: None }]
        })
    }
}

/// The path that a source stands for.
pub open spec fn source_path(targets: Seq<Target>, source: Source) -> Seq<char> {
    match source.entry {
        Some(j) => targets[source.target as int].walk->0@[j as int].path@,
        None => targets[source.target as int].path@,
    }
}

/// The paths that a list of sources stands for.
pub open spec fn source_paths(targets: Seq<Target>, list: Seq<Source>) -> Seq<Seq<char>> {
    Seq::new(list.len(), |k: int| source_path(targets, list[k]))
}

/// Appends to `list` the sources of the regular files of the walk of target
/// `t`.
fn push_walk_sources(list: &mut Vec<Source>, targets: &Vec<Target>, t: usize)
    requires
        t < targets@.len(),
        targets@[t as int].walk is Some,
    ensures
        final(list)@ == old(list)@ + walk_sources(
            t,
            targets@[t as int].walk->0@,
            targets@[t as int].walk->0@.len(),
        ),
        source_paths(targets@, final(list)@) == source_paths(targets@, old(list)@) + files_among(
            targets@[t as int].walk->0@,
            targets@[t as int].walk->0@.len(),
        ),
{
    let ghost start = list@;
    let ghost start_paths = source_paths(targets@, list@);
    match &targets[t].walk {
        None => {},
        Some(entries) => {
            let mut j: usize = 0;
            proof {
                assert(start + walk_sources(t, entries@, 0) =~= start);
                assert(start_paths + files_among(entries@, 0) =~= start_paths);
            }
            while j < entries.len()
                invariant
                    j <= entries@.len(),
                    t < targets@.len(),
                    targets@[t as int].walk == Some(*entries),
                    list@ == start + walk_sources(t, entries@, j as nat),
                    source_paths(targets@, list@) == start_paths + files_among(
                        entries@,
                        j as nat,
                    ),
                decreases entries@.len() - j,
            {
                if entries[j].is_file {
                    let ghost before = list@;
                    let ghost before_paths = source_paths(targets@, list@);
                    let source = Source { target: t, entry: Some(j) };
                    list.push(source);
                    proof {
                        assert(list@ =~= start + walk_sources(t, entries@, (j + 1) as nat));
                        assert(source_path(targets@, source) == entries@[j as int].path@);
                        assert(source_paths(targets@, list@) =~= before_paths.push(
                            entries@[j as int].path@,
                        ));
                        assert(source_paths(targets@, list@) =~= start_paths + files_among(
                            entries@,
                            (j + 1) as nat,
                        ));
                    }
                }
                j += 1;
            }
        },
    }
}

/// Where the files to scan come from, in the order in which they are
/// scanned: for each the target, and the entry of its walk where it was found
/// by one. The paths of these sources are the files that `expand_targets`
/// gives.
pub fn expand_sources(targets: &Vec<Target>, recursive: bool) -> (list: Vec<Source>)
    ensures
        list@ == sources(targets@, recursive, targets@.len()),
        source_paths(targets@, list@) == expansion(targets@, recursive, targets@.len()),
{
    let mut list: Vec<Source> = Vec::new();
    let mut i: usize = 0;
    proof {
        assert(source_paths(targets@, list@) =~= expansion(targets@, recursive, 0));
    }
    while i < targets.len()
        invariant
            i <= targets@.len(),
            list@ == sources(targets@, recursive, i as nat),
            source_paths(targets@, list@) == expansion(targets@, recursive, i as nat),
        decreases targets@.len() - i,
    {
        let ghost before = list@;
        let ghost before_paths = source_paths(targets@, list@);
        if recursive && targets[i].walk.is_some() {
            push_walk_sources(&mut list, targets, i);
        } else {
            let source = Source { target: i, entry: None };
            list.push(source);
            proof {
                assert(list@ =~= before + seq![source]);
                assert(source_path(targets@, source) == targets@[i as int].path@);
                assert(source_paths(targets@, list@) =~= before_paths + seq![
                    targets@[i as int].path@,
                ]);
            }
        }
        i += 1;
    }
    list
}

} // verus!
