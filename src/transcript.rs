//! Reading a transcript: one line at a time into a token, then the tokens
//! grouped into commands.
use vstd::prelude::*;

use vstd::string::{StrSliceExecFns, StringExecFns};

use crate::error::AppError;

verus! {

/// One line of a transcript.
pub enum InputLine {
    CdRoot,
    CdUp,
    CdDir(String),
    Ls,
    File(usize, String),
    Directory(String),
}

/// One entry printed by `ls`.
pub enum FileDesc {
    File(usize, String),
    Directory(String),
}

/// A navigation command, or a listing with all of its entries.
pub enum Command {
    CdRoot,
    CdUp,
    CdDir(String),
    Ls(Vec<FileDesc>),
}

pub ghost enum LineModel {
    CdRoot,
    CdUp,
    CdDir(Seq<char>),
    Ls,
    File(usize, Seq<char>),
    Directory(Seq<char>),
}

pub ghost enum DescModel {
    File(usize, Seq<char>),
    Directory(Seq<char>),
}

pub ghost enum CommandModel {
    CdRoot,
    CdUp,
    CdDir(Seq<char>),
    Ls(Seq<DescModel>),
}

impl View for InputLine {
    type V = LineModel;

    open spec fn view(&self) -> LineModel {
        match self {
            InputLine::CdRoot => LineModel::CdRoot,
            InputLine::CdUp => LineModel::CdUp,
            InputLine::CdDir(n) => LineModel::CdDir(n@),
            InputLine::Ls => LineModel::Ls,
            InputLine::File(s, n) => LineModel::File(*s, n@),
            InputLine::Directory(n) => LineModel::Directory(n@),
        }
    }
}

impl View for FileDesc {
    type V = DescModel;

    open spec fn view(&self) -> DescModel {
        match self {
            FileDesc::File(s, n) => DescModel::File(*s, n@),
            FileDesc::Directory(n) => DescModel::Directory(n@),
        }
    }
}

pub open spec fn descs_view(ds: Seq<FileDesc>) -> Seq<DescModel> {
    ds.map_values(|d: FileDesc| d@)
}

impl View for Command {
    type V = CommandModel;

    open spec fn view(&self) -> CommandModel {
        match self {
            Command::CdRoot => CommandModel::CdRoot,
            Command::CdUp => CommandModel::CdUp,
            Command::CdDir(n) => CommandModel::CdDir(n@),
            Command::Ls(ds) => CommandModel::Ls(descs_view(ds@)),
        }
    }
}

pub open spec fn commands_view(cs: Seq<Command>) -> Seq<CommandModel> {
    cs.map_values(|c: Command| c@)
}

/// The characters that `char::is_whitespace` accepts: those with Unicode's
/// White_Space property.
pub open spec fn is_space(c: char) -> bool {
    ('\u{9}' <= c <= '\u{d}') || c == ' ' || c == '\u{85}' || c == '\u{a0}' || c == '\u{1680}'
        || ('\u{2000}' <= c <= '\u{200a}') || c == '\u{2028}' || c == '\u{2029}' || c
        == '\u{202f}' || c == '\u{205f}' || c == '\u{3000}'
}

/// The maximal runs of non-space characters of `s`, in order.
pub open spec fn split_ws(s: Seq<char>) -> Seq<Seq<char>>
    decreases s.len(),
{
    if s.len() == 0 {
        Seq::empty()
    } else {
        let t = split_ws(s.drop_last());
        let c = s.last();
        if is_space(c) {
            t
        } else if s.len() > 1 && !is_space(s[s.len() - 2]) {
            t.drop_last().push(t.last().push(c))
        } else {
            t.push(seq![c])
        }
    }
}

/// Value of a string of decimal digits.
pub open spec fn decimal_value(d: Seq<char>) -> nat
    decreases d.len(),
{
    if d.len() == 0 {
        0
    } else {
        (decimal_value(d.drop_last()) * 10 + (d.last() as int - '0' as int)) as nat
    }
}

pub open spec fn all_digits(d: Seq<char>) -> bool {
    forall|i: int| 0 <= i < d.len() ==> '0' <= #[trigger] d[i] <= '9'
}

/// A size as `usize::from_str` reads it: an optional `+`, then at least one
/// decimal digit, with a value that fits.
pub open spec fn parse_size(w: Seq<char>) -> Option<usize> {
    let d = if w.len() > 0 && w[0] == '+' {
        w.drop_first()
    } else {
        w
    };
    if d.len() > 0 && all_digits(d) && decimal_value(d) <= usize::MAX {
        Some(decimal_value(d) as usize)
    } else {
        None
    }
}

/// The meaning of a transcript line split into words; `None` for a line of
/// no recognised shape. Words after the ones a shape needs are ignored.
pub open spec fn parse_words(t: Seq<Seq<char>>) -> Option<LineModel> {
    if t.len() == 0 {
        None
    } else if t[0] == seq!['$'] {
        if t.len() >= 2 && t[1] == seq!['c', 'd'] {
            if t.len() >= 3 {
                if t[2] == seq!['.', '.'] {
                    Some(LineModel::CdUp)
                } else if t[2] == seq!['/'] {
                    Some(LineModel::CdRoot)
                } else {
                    Some(LineModel::CdDir(t[2]))
                }
            } else {
                None
            }
        } else if t.len() >= 2 && t[1] == seq!['l', 's'] {
            Some(LineModel::Ls)
        } else {
            None
        }
    } else if t[0] == seq!['d', 'i', 'r'] {
        if t.len() >= 2 {
            Some(LineModel::Directory(t[1]))
        } else {
            None
        }
    } else {
        match parse_size(t[0]) {
            Some(n) => if t.len() >= 2 {
                Some(LineModel::File(n, t[1]))
            } else {
                None
            },
            None => None,
        }
    }
}

/// Each range of `r` lies within the first `bound` characters of `s` and
/// holds the word of `words` at its position.
pub open spec fn ranges_hold(s: Seq<char>, r: Seq<(usize, usize)>, words: Seq<Seq<char>>, bound: int) -> bool {
    &&& r.len() == words.len()
    &&& forall|k: int|
        #![trigger r[k]]
        0 <= k < r.len() ==> r[k].0 as int <= r[k].1 as int <= bound && s.subrange(
            r[k].0 as int,
            r[k].1 as int,
        ) == words[k]
}

proof fn lemma_ranges_push(
    s: Seq<char>,
    r: Seq<(usize, usize)>,
    words: Seq<Seq<char>>,
    b1: int,
    b2: int,
    x: Option<(usize, usize)>,
)
    requires
        ranges_hold(s, r, words, b1),
        b1 <= b2,
        match x {
            Some(x) => x.0 <= x.1 <= b2,
            None => true,
        },
    ensures
        match x {
            Some(x) => ranges_hold(s, r.push(x), words.push(s.subrange(x.0 as int, x.1 as int)), b2),
            None => ranges_hold(s, r, words, b2),
        },
{
    match x {
        Some(x) => {
            let w = s.subrange(x.0 as int, x.1 as int);
            assert forall|k: int| 0 <= k < r.len() + 1 implies (r.push(x)[k].0 as int <= r.push(x)[k].1 as int <= b2
                && s.subrange(r.push(x)[k].0 as int, r.push(x)[k].1 as int) == #[trigger] words.push(w)[k]) by {
                if k < r.len() {
                    assert(words.push(w)[k] == words[k]);
                }
            }
        },
        None => {
            assert forall|k: int| 0 <= k < r.len() implies (r[k].0 as int <= r[k].1 as int <= b2
                && s.subrange(r[k].0 as int, r[k].1 as int) == #[trigger] words[k]) by {}
        },
    }
}

/// Start and end positions of the words of `s`.
fn word_ranges(s: &str) -> (r: Vec<(usize, usize)>)
    ensures
        ranges_hold(s@, r@, split_ws(s@), s@.len() as int),
{
    let n = s.unicode_len();
    let mut r: Vec<(usize, usize)> = Vec::new();
    let mut i: usize = 0;
    while i < n
        invariant
            n == s@.len(),
            0 <= i <= n,
            ranges_hold(s@, r@, split_ws(s@.take(i as int)), i as int),
            i > 0 && !is_space(s@[i - 1]) ==> r@.len() > 0 && r@[r@.len() - 1].1 == i,
        decreases n - i,
    {
        let c = s.get_char(i);
        let ghost prev = s@.take(i as int);
        let ghost next = s@.take(i + 1);
        assert(next.drop_last() =~= prev);
        assert(next.last() == c);
        if is_space_char(c) {
            assert(split_ws(next) == split_ws(prev));
            proof {
                lemma_ranges_push(s@, r@, split_ws(prev), i as int, i + 1, None);
            }
        } else if i > 0 && !is_space_char(s.get_char(i - 1)) {
            assert(next[next.len() - 2] == s@[i - 1]);
            let last = r.len() - 1;
            let start = r[last].0;
            assert(s@.subrange(start as int, i as int) == split_ws(prev)[last as int]);
            let ghost old_r = r@;
            r.set(last, (start, i + 1));
            assert forall|k: int|
                0 <= k < r@.len() implies r@[k].0 <= r@[k].1 <= i + 1 && s@.subrange(
                r@[k].0 as int,
                r@[k].1 as int,
            ) == #[trigger] split_ws(next)[k] by {
                if k == last {
                    assert(s@.subrange(start as int, i + 1) =~= s@.subrange(start as int, i as int).push(c));
                } else {
                    assert(r@[k] == old_r[k]);
                    assert(split_ws(next)[k] == split_ws(prev)[k]);
                }
            }
            assert(ranges_hold(s@, r@, split_ws(next), i + 1));
        } else {
            if i > 0 {
                assert(next[next.len() - 2] == s@[i - 1]);
            }
            let ghost old_r = r@;
            r.push((i, i + 1));
            assert(s@.subrange(i as int, i + 1) =~= seq![c]);
            assert(split_ws(next) == split_ws(prev).push(seq![c]));
            proof {
                lemma_ranges_push(s@, old_r, split_ws(prev), i as int, i + 1, Some((i, (i + 1) as usize)));
            }
            assert(r@ == old_r.push((i, (i + 1) as usize)));
        }
        assert(ranges_hold(s@, r@, split_ws(next), i + 1));
        i = i + 1;
    }
    assert(s@.take(n as int) =~= s@);
    r
}

/// Whether `c` is white space, as `char::is_whitespace` decides it.
fn is_space_char(c: char) -> (r: bool)
    ensures
        r == is_space(c),
{
    ('\u{9}' <= c && c <= '\u{d}') || c == ' ' || c == '\u{85}' || c == '\u{a0}' || c
        == '\u{1680}' || ('\u{2000}' <= c && c <= '\u{200a}') || c == '\u{2028}' || c
        == '\u{2029}' || c == '\u{202f}' || c == '\u{205f}' || c == '\u{3000}'
}

proof fn lemma_decimal_prefix(d: Seq<char>, m: int)
    requires
        all_digits(d),
        0 <= m <= d.len(),
    ensures
        decimal_value(d.take(m)) <= decimal_value(d),
    decreases d.len(),
{
    if m < d.len() {
        let t = d.drop_last();
        assert(all_digits(t)) by {
            assert forall|i: int| 0 <= i < t.len() implies '0' <= #[trigger] t[i] <= '9' by {
                assert(t[i] == d[i]);
            }
        }
        lemma_decimal_prefix(t, m);
        assert(t.take(m) =~= d.take(m));
        assert('0' <= d[d.len() - 1] <= '9');
    } else {
        assert(d.take(m) =~= d);
    }
}

/// Reads the size written in `s` between `start` and `end`.
fn parse_size_word(s: &str, start: usize, end: usize) -> (r: Option<usize>)
    requires
        start <= end <= s@.len(),
    ensures
        r == parse_size(s@.subrange(start as int, end as int)),
{
    let ghost w = s@.subrange(start as int, end as int);
    let mut j = start;
    if j < end && s.get_char(j) == '+' {
        j = j + 1;
    }
    let ghost d = s@.subrange(j as int, end as int);
    assert(d == if w.len() > 0 && w[0] == '+' {
        w.drop_first()
    } else {
        w
    });
    if j == end {
        return None;
    }
    let mut acc: usize = 0;
    let mut k = j;
    while k < end
        invariant
            start <= j <= k <= end <= s@.len(),
            j < end,
            w == s@.subrange(start as int, end as int),
            d == s@.subrange(j as int, end as int),
            d == if w.len() > 0 && w[0] == '+' {
                w.drop_first()
            } else {
                w
            },
            all_digits(d.take(k - j)),
            acc == decimal_value(d.take(k - j)),
        decreases end - k,
    {
        let c = s.get_char(k);
        assert(d[k - j] == c);
        if c < '0' || c > '9' {
            assert(!all_digits(d));
            return None;
        }
        let digit = (c as u32 - '0' as u32) as usize;
        let ghost next = d.take(k - j + 1);
        assert(next.drop_last() =~= d.take(k - j));
        assert(next.last() == c);
        assert(all_digits(next)) by {
            assert forall|i: int| 0 <= i < next.len() implies '0' <= #[trigger] next[i] <= '9' by {
                if i < next.len() - 1 {
                    assert(next[i] == d.take(k - j)[i]);
                }
            }
        }
        let grown = match acc.checked_mul(10) {
            Some(x) => x.checked_add(digit),
            None => None,
        };
        match grown {
            Some(x) => {
                acc = x;
            },
            None => {
                proof {
                    if all_digits(d) {
                        lemma_decimal_prefix(d, k - j + 1);
                    }
                }
                return None;
            },
        }
        k = k + 1;
    }
    assert(d.take(end - j) =~= d);
    Some(acc)
}

/// Whether the characters of `s` between `start` and `end` spell `w`.
fn word_is(s: &str, start: usize, end: usize, w: &str) -> (r: bool)
    requires
        start <= end <= s@.len(),
    ensures
        r == (s@.subrange(start as int, end as int) == w@),
{
    let n = w.unicode_len();
    if end - start != n {
        return false;
    }
    let mut k: usize = 0;
    while k < n
        invariant
            start <= end <= s@.len(),
            n == w@.len() == end - start,
            0 <= k <= n,
            forall|i: int| 0 <= i < k ==> s@[start + i] == w@[i],
        decreases n - k,
    {
        if s.get_char(start + k) != w.get_char(k) {
            assert(s@.subrange(start as int, end as int)[k as int] != w@[k as int]);
            return false;
        }
        k = k + 1;
    }
    assert(s@.subrange(start as int, end as int) =~= w@);
    true
}

/// Reads one transcript line: `$ cd /`, `$ cd ..`, `$ cd <name>`, `$ ls`,
/// `dir <name>` or `<size> <name>`; anything else is bad input.
pub fn parse_input(s: &str) -> (r: Result<InputLine, AppError>)
    ensures
        match parse_words(split_ws(s@)) {
            Some(l) => r is Ok && r->Ok_0@ == l,
            None => r is Err && r->Err_0 is BadInput,
        },
{
    let ranges = word_ranges(s);
    let ghost t = split_ws(s@);
    let n = ranges.len();
    if n == 0 {
        return Err(AppError::BadInput);
    }
    proof {
        reveal_strlit("$");
        reveal_strlit("cd");
        reveal_strlit("..");
        reveal_strlit("/");
        reveal_strlit("ls");
        reveal_strlit("dir");
        assert("$"@ =~= seq!['$']);
        assert("cd"@ =~= seq!['c', 'd']);
        assert(".."@ =~= seq!['.', '.']);
        assert("/"@ =~= seq!['/']);
        assert("ls"@ =~= seq!['l', 's']);
        assert("dir"@ =~= seq!['d', 'i', 'r']);
    }
    let (a0, b0) = ranges[0];
    assert(s@.subrange(a0 as int, b0 as int) == t[0]);
    if word_is(s, a0, b0, "$") {
        if n < 2 {
            return Err(AppError::BadInput);
        }
        let (a1, b1) = ranges[1];
        assert(s@.subrange(a1 as int, b1 as int) == t[1]);
        if word_is(s, a1, b1, "cd") {
            if n < 3 {
                return Err(AppError::BadInput);
            }
            let (a2, b2) = ranges[2];
            assert(s@.subrange(a2 as int, b2 as int) == t[2]);
            if word_is(s, a2, b2, "..") {
                Ok(InputLine::CdUp)
            } else if word_is(s, a2, b2, "/") {
                Ok(InputLine::CdRoot)
            } else {
                Ok(InputLine::CdDir(String::from_str(s.substring_char(a2, b2))))
            }
        } else if word_is(s, a1, b1, "ls") {
            Ok(InputLine::Ls)
        } else {
            Err(AppError::BadInput)
        }
    } else if word_is(s, a0, b0, "dir") {
        if n < 2 {
            return Err(AppError::BadInput);
        }
        let (a1, b1) = ranges[1];
        assert(s@.subrange(a1 as int, b1 as int) == t[1]);
        Ok(InputLine::Directory(String::from_str(s.substring_char(a1, b1))))
    } else {
        match parse_size_word(s, a0, b0) {
            Some(size) => {
                if n < 2 {
                    return Err(AppError::BadInput);
                }
                let (a1, b1) = ranges[1];
                assert(s@.subrange(a1 as int, b1 as int) == t[1]);
                Ok(InputLine::File(size, String::from_str(s.substring_char(a1, b1))))
            },
            None => Err(AppError::BadInput),
        }
    }
}

/// Progress of the grouping pass: the commands so far, the entries of the
/// listing being read, and whether a listing is being read.
pub ghost struct Grouping {
    pub collected: Seq<CommandModel>,
    pub pending: Seq<DescModel>,
    pub listing: bool,
}

/// The commands so far, with the listing being read closed off.
pub open spec fn flushed(g: Grouping) -> Seq<CommandModel> {
    if g.listing {
        g.collected.push(CommandModel::Ls(g.pending))
    } else {
        g.collected
    }
}

/// One line taken into the grouping pass. A navigation line closes the
/// listing being read; an entry line outside a listing is dropped.
pub open spec fn group_step(g: Grouping, l: LineModel) -> Grouping {
    match l {
        LineModel::CdRoot => Grouping {
            collected: flushed(g).push(CommandModel::CdRoot),
            pending: Seq::empty(),
            listing: false,
        },
        LineModel::CdUp => Grouping {
            collected: flushed(g).push(CommandModel::CdUp),
            pending: Seq::empty(),
            listing: false,
        },
        LineModel::CdDir(n) => Grouping {
            collected: flushed(g).push(CommandModel::CdDir(n)),
            pending: Seq::empty(),
            listing: false,
        },
        LineModel::Ls => Grouping { listing: true, ..g },
        LineModel::File(size, n) => if g.listing {
            Grouping { pending: g.pending.push(DescModel::File(size, n)), ..g }
        } else {
            g
        },
        LineModel::Directory(n) => if g.listing {
            Grouping { pending: g.pending.push(DescModel::Directory(n)), ..g }
        } else {
            g
        },
    }
}

pub open spec fn group_lines(ls: Seq<LineModel>) -> Grouping
    decreases ls.len(),
{
    if ls.len() == 0 {
        Grouping { collected: Seq::empty(), pending: Seq::empty(), listing: false }
    } else {
        group_step(group_lines(ls.drop_last()), ls.last())
    }
}

/// The commands that the lines `ls` describe.
pub open spec fn group_commands(ls: Seq<LineModel>) -> Seq<CommandModel> {
    flushed(group_lines(ls))
}

pub open spec fn lines_view(ls: Seq<InputLine>) -> Seq<LineModel> {
    ls.map_values(|l: InputLine| l@)
}

fn clone_name(s: &String) -> (r: String)
    ensures
        r@ == s@,
{
    s.clone()
}

/// Groups transcript lines into commands: the entry lines after an `ls`
/// become one listing, closed by the next navigation line or by the end.
pub fn collect_input(input_lines: &Vec<InputLine>) -> (r: Vec<Command>)
    ensures
        commands_view(r@) == group_commands(lines_view(input_lines@)),
{
    let ghost lv = lines_view(input_lines@);
    let mut collected: Vec<Command> = Vec::new();
    let mut output: Vec<FileDesc> = Vec::new();
    let mut appending_to_output = false;
    let mut i: usize = 0;
    assert(lv.take(0) =~= Seq::<LineModel>::empty());
    assert(commands_view(collected@) =~= Seq::<CommandModel>::empty());
    assert(descs_view(output@) =~= Seq::<DescModel>::empty());
    while i < input_lines.len()
        invariant
            0 <= i <= input_lines.len(),
            lv == lines_view(input_lines@),
            group_lines(lv.take(i as int)) == (Grouping {
                collected: commands_view(collected@),
                pending: descs_view(output@),
                listing: appending_to_output,
            }),
            !appending_to_output ==> output@.len() == 0,
        decreases input_lines.len() - i,
    {
        assert(lv.take(i + 1).drop_last() =~= lv.take(i as int));
        assert(lv[i as int] == input_lines@[i as int]@);
        let ghost g = group_lines(lv.take(i as int));
        match &input_lines[i] {
            InputLine::Ls => {
                appending_to_output = true;
            },
            InputLine::File(size, name) => {
                if appending_to_output {
                    output.push(FileDesc::File(*size, clone_name(name)));
                    assert(descs_view(output@) =~= g.pending.push(DescModel::File(*size, name@)));
                }
            },
            InputLine::Directory(name) => {
                if appending_to_output {
                    output.push(FileDesc::Directory(clone_name(name)));
                    assert(descs_view(output@) =~= g.pending.push(DescModel::Directory(name@)));
                }
            },
            line => {
                if appending_to_output {
                    appending_to_output = false;
                    let mut batch: Vec<FileDesc> = Vec::new();
                    std::mem::swap(&mut batch, &mut output);
                    collected.push(Command::Ls(batch));
                    assert(commands_view(collected@) =~= flushed(g));
                }
                let ghost before = commands_view(collected@);
                assert(before == flushed(g));
                let command = match line {
                    InputLine::CdRoot => Command::CdRoot,
                    InputLine::CdUp => Command::CdUp,
                    InputLine::CdDir(name) => Command::CdDir(clone_name(name)),
                    _ => Command::CdRoot,
                };
                collected.push(command);
                assert(commands_view(collected@) =~= before.push(command@));
                assert(descs_view(output@) =~= Seq::<DescModel>::empty());
            },
        }
        i = i + 1;
    }
    assert(lv.take(input_lines.len() as int) =~= lv);
    if appending_to_output {
        let ghost before = commands_view(collected@);
        collected.push(Command::Ls(output));
        assert(commands_view(collected@) =~= before.push(CommandModel::Ls(descs_view(output@))));
    }
    collected
}

} // verus!
