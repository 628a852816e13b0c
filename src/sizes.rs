//! Directory sizes over a rebuilt tree, and the sum of the sizes that do not
//! exceed a threshold.
use vstd::prelude::*;

use crate::error::AppError;
use crate::filesystem::{run, wf, Entry, EntryModel, Filesystem, NodeModel};
use crate::transcript::{
    collect_input, group_commands, lines_view, parse_input, parse_words, split_ws, InputLine,
    LineModel,
};

verus! {

/// Total size of directory `i`: the sizes of all files reachable from it.
pub open spec fn dir_size(fs: Seq<NodeModel>, i: int) -> nat
    decreases fs.len() - i, 1int, 0int,
{
    if 0 <= i < fs.len() {
        entries_size(fs, i, fs[i].children.len() as int)
    } else {
        0
    }
}

/// Total size of the first `n` entries of directory `i`.
pub open spec fn entries_size(fs: Seq<NodeModel>, i: int, n: int) -> nat
    decreases fs.len() - i, 0int, n,
{
    if 0 <= i < fs.len() && 0 < n <= fs[i].children.len() {
        entries_size(fs, i, n - 1) + match fs[i].children[n - 1] {
            EntryModel::File(size, _) => size as nat,
            EntryModel::Dir(k, _) => if i < k < fs.len() {
                dir_size(fs, k as int)
            } else {
                0
            },
        }
    } else {
        0
    }
}

/// Sum of the total sizes, each at most `t`, of directory `i` and of every
/// directory below it.
pub open spec fn threshold_sum(fs: Seq<NodeModel>, i: int, t: int) -> nat
    decreases fs.len() - i, 1int, 0int,
{
    if 0 <= i < fs.len() {
        entries_threshold_sum(fs, i, fs[i].children.len() as int, t) + if dir_size(fs, i) <= t {
            dir_size(fs, i)
        } else {
            0
        }
    } else {
        0
    }
}

/// `threshold_sum` over the subdirectories among the first `n` entries of
/// directory `i`.
pub open spec fn entries_threshold_sum(fs: Seq<NodeModel>, i: int, n: int, t: int) -> nat
    decreases fs.len() - i, 0int, n,
{
    if 0 <= i < fs.len() && 0 < n <= fs[i].children.len() {
        entries_threshold_sum(fs, i, n - 1, t) + match fs[i].children[n - 1] {
            EntryModel::File(_, _) => 0,
            EntryModel::Dir(k, _) => if i < k < fs.len() {
                threshold_sum(fs, k as int, t)
            } else {
                0
            },
        }
    } else {
        0
    }
}

proof fn lemma_entries_size_grows(fs: Seq<NodeModel>, i: int, n: int, m: int, t: int)
    requires
        0 <= i < fs.len(),
        0 <= n <= m <= fs[i].children.len(),
    ensures
        entries_size(fs, i, n) <= entries_size(fs, i, m),
        entries_threshold_sum(fs, i, n, t) <= entries_threshold_sum(fs, i, m, t),
    decreases m - n,
{
    if n < m {
        lemma_entries_size_grows(fs, i, n, m - 1, t);
    }
}

/// Total size of directory `node` and the sum of the total sizes, of
/// `node` and of every directory below it, that do not exceed `threshold`;
/// `None` when either does not fit in a `usize`.
pub fn add_sizes_up_to_threshold(fs: &Filesystem, node: usize, threshold: usize) -> (r: Option<(usize, usize)>)
    requires
        wf(fs@),
        node < fs@.len(),
    ensures
        match r {
            Some((size, sum)) => size == dir_size(fs@, node as int) && sum == threshold_sum(
                fs@,
                node as int,
                threshold as int,
            ),
            None => dir_size(fs@, node as int) > usize::MAX || threshold_sum(
                fs@,
                node as int,
                threshold as int,
            ) > usize::MAX,
        },
    decreases fs@.len() - node,
{
    let ghost g = fs@;
    let ghost t = threshold as int;
    let ghost i = node as int;
    let children = &fs.nodes[node].children;
    let ghost cs = g[i].children;
    assert(g[i] == fs.nodes@[i]@);
    let n = children.len();
    let mut size: usize = 0;
    let mut sum: usize = 0;
    let mut j: usize = 0;
    while j < n
        invariant
            g == fs@,
            t == threshold as int,
            wf(g),
            i == node,
            i < g.len(),
            cs == g[i].children,
            cs == children@.map_values(|e: Entry| e@),
            n == children.len(),
            0 <= j <= n,
            size == entries_size(g, i, j as int),
            sum == entries_threshold_sum(g, i, j as int, t),
        decreases n - j,
    {
        assert(cs[j as int] == children@[j as int]@);
        proof {
            lemma_entries_size_grows(g, i, j + 1, n as int, t);
        }
        match &children[j] {
            Entry::File(file_size, _) => {
                match size.checked_add(*file_size) {
                    Some(s) => {
                        size = s;
                    },
                    None => {
                        return None;
                    },
                }
            },
            Entry::Dir(k, _) => {
                assert(i < *k < g.len());
                assert(cs.len() == n);
                assert(entries_size(g, i, j + 1) == entries_size(g, i, j as int) + dir_size(g, *k as int));
                assert(entries_threshold_sum(g, i, j + 1, t) == entries_threshold_sum(g, i, j as int, t)
                    + threshold_sum(g, *k as int, t));
                assert(dir_size(g, i) == entries_size(g, i, n as int));
                assert(threshold_sum(g, i, t) >= entries_threshold_sum(g, i, n as int, t));
                match add_sizes_up_to_threshold(fs, *k, threshold) {
                    Some((child_size, child_sum)) => {
                        match size.checked_add(child_size) {
                            Some(s) => {
                                size = s;
                            },
                            None => {
                                return None;
                            },
                        }
                        match sum.checked_add(child_sum) {
                            Some(s) => {
                                sum = s;
                            },
                            None => {
                                return None;
                            },
                        }
                    },
                    None => {
                        return None;
                    },
                }
            },
        }
        j = j + 1;
    }
    if size <= threshold {
        match sum.checked_add(size) {
            Some(s) => {
                sum = s;
            },
            None => {
                return None;
            },
        }
    }
    Some((size, sum))
}

/// Raising the threshold never lowers the threshold sum of a directory.
pub proof fn lemma_threshold_sum_monotone(fs: Seq<NodeModel>, i: int, t1: int, t2: int)
    requires
        t1 <= t2,
    ensures
        threshold_sum(fs, i, t1) <= threshold_sum(fs, i, t2),
    decreases fs.len() - i, 1int, 0int,
{
    if 0 <= i < fs.len() {
        lemma_entries_threshold_sum_monotone(fs, i, fs[i].children.len() as int, t1, t2);
    }
}

proof fn lemma_entries_threshold_sum_monotone(fs: Seq<NodeModel>, i: int, n: int, t1: int, t2: int)
    requires
        t1 <= t2,
    ensures
        entries_threshold_sum(fs, i, n, t1) <= entries_threshold_sum(fs, i, n, t2),
    decreases fs.len() - i, 0int, n,
{
    if 0 <= i < fs.len() && 0 < n <= fs[i].children.len() {
        lemma_entries_threshold_sum_monotone(fs, i, n - 1, t1, t2);
        match fs[i].children[n - 1] {
            EntryModel::File(_, _) => {},
            EntryModel::Dir(k, _) => {
                if i < k < fs.len() {
                    lemma_threshold_sum_monotone(fs, k as int, t1, t2);
                }
            },
        }
    }
}

/// Directories of at most this total size count as small.
pub const SMALL_DIR_LIMIT: usize = 100000;

/// The meanings of the lines `ls`, or `None` when one of them has no
/// recognised shape.
pub open spec fn parse_lines(ls: Seq<Seq<char>>) -> Option<Seq<LineModel>>
    decreases ls.len(),
{
    if ls.len() == 0 {
        Some(Seq::empty())
    } else {
        match (parse_lines(ls.drop_last()), parse_words(split_ws(ls.last()))) {
            (Some(p), Some(l)) => Some(p.push(l)),
            _ => None,
        }
    }
}

pub open spec fn strings_view(ls: Seq<String>) -> Seq<Seq<char>> {
    ls.map_values(|l: String| l@)
}

/// The sum of the total sizes of the small directories of the tree that the
/// transcript `ls` describes; `None` when a line is malformed, a command
/// cannot be followed, or a sum does not fit in a `usize`.
pub open spec fn small_dirs_total(ls: Seq<Seq<char>>) -> Option<usize> {
    match parse_lines(ls) {
        None => None,
        Some(p) => match run(group_commands(p)) {
            None => None,
            Some((fs, _)) => if dir_size(fs, 0) <= usize::MAX && threshold_sum(
                fs,
                0,
                SMALL_DIR_LIMIT as int,
            ) <= usize::MAX {
                Some(threshold_sum(fs, 0, SMALL_DIR_LIMIT as int) as usize)
            } else {
                None
            },
        },
    }
}

/// Rebuilds the tree from the transcript `lines` and sums the total sizes of
/// its directories of at most `SMALL_DIR_LIMIT`.
pub fn day_7_1(lines: &Vec<String>) -> (r: Result<usize, AppError>)
    ensures
        match small_dirs_total(strings_view(lines@)) {
            Some(v) => r == Ok::<usize, AppError>(v),
            None => r is Err && r->Err_0 is BadInput,
        },
{
    let ghost sv = strings_view(lines@);
    let mut parsed: Vec<InputLine> = Vec::new();
    let mut i: usize = 0;
    while i < lines.len()
        invariant
            0 <= i <= lines.len(),
            sv == strings_view(lines@),
            parse_lines(sv.take(i as int)) == Some(lines_view(parsed@)),
        decreases lines.len() - i,
    {
        assert(sv.take(i + 1).drop_last() =~= sv.take(i as int));
        assert(sv[i as int] == lines@[i as int]@);
        match parse_input(lines[i].as_str()) {
            Ok(line) => {
                let ghost before = lines_view(parsed@);
                parsed.push(line);
                assert(lines_view(parsed@) =~= before.push(line@));
            },
            Err(_) => {
                proof {
                    lemma_parse_lines_stays_none(sv, i + 1);
                }
                return Err(AppError::BadInput);
            },
        }
        i = i + 1;
    }
    assert(sv.take(lines.len() as int) =~= sv);
    let commands = collect_input(&parsed);
    match Filesystem::build(commands.as_slice()) {
        Some(fs) => match add_sizes_up_to_threshold(&fs, 0, SMALL_DIR_LIMIT) {
            Some((_, sum)) => Ok(sum),
            None => Err(AppError::BadInput),
        },
        None => Err(AppError::BadInput),
    }
}

proof fn lemma_parse_lines_stays_none(ls: Seq<Seq<char>>, n: int)
    requires
        0 <= n <= ls.len(),
        parse_lines(ls.take(n)) is None,
    ensures
        parse_lines(ls) is None,
    decreases ls.len() - n,
{
    if n < ls.len() {
        assert(ls.take(n + 1).drop_last() =~= ls.take(n));
        lemma_parse_lines_stays_none(ls, n + 1);
    } else {
        assert(ls.take(n) =~= ls);
    }
}

} // verus!
