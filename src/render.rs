//! A text picture of a rebuilt tree: one line per directory and per file,
//! indented two more spaces at each level.
use vstd::prelude::*;
use vstd::string::StringExecFns;

use crate::filesystem::{wf, Entry, EntryModel, Filesystem, NodeModel};

verus! {

pub open spec fn spaces(n: nat) -> Seq<char> {
    Seq::new(n, |i: int| ' ')
}

pub open spec fn digit_chars() -> Seq<char> {
    seq!['0', '1', '2', '3', '4', '5', '6', '7', '8', '9']
}

/// Decimal digits of `n`, most significant first, without leading zeros.
pub open spec fn decimal_text(n: nat) -> Seq<char>
    decreases n,
{
    if n < 10 {
        seq![digit_chars()[n as int]]
    } else {
        decimal_text(n / 10).push(digit_chars()[(n % 10) as int])
    }
}

/// Relies on `usize`'s `Display` impl, through `to_string`: the decimal
/// digits of the value.
#[verifier::external_body]
fn size_text(n: usize) -> (r: String)
    ensures
        r@ == decimal_text(n as nat),
{
    n.to_string()
}

/// Lines for directory `i`, shown as `label` at indent `offset`, followed by
/// its entries one level deeper.
pub open spec fn render_dir(fs: Seq<NodeModel>, i: int, label: Seq<char>, offset: nat) -> Seq<Seq<char>>
    decreases fs.len() - i, 1int, 0int,
{
    if 0 <= i < fs.len() {
        seq![spaces(offset) + label] + render_entries(fs, i, fs[i].children.len() as int, offset + 2)
    } else {
        Seq::empty()
    }
}

/// Lines for the first `n` entries of directory `i` at indent `offset`: a
/// file as its name and size, a subdirectory as its own picture.
pub open spec fn render_entries(fs: Seq<NodeModel>, i: int, n: int, offset: nat) -> Seq<Seq<char>>
    decreases fs.len() - i, 0int, n,
{
    if 0 <= i < fs.len() && 0 < n <= fs[i].children.len() {
        render_entries(fs, i, n - 1, offset) + match fs[i].children[n - 1] {
            EntryModel::File(size, name) => seq![
                spaces(offset) + name + seq![' '] + decimal_text(size as nat),
            ],
            EntryModel::Dir(k, name) => if i < k < fs.len() {
                render_dir(fs, k as int, name, offset)
            } else {
                Seq::empty()
            },
        }
    } else {
        Seq::empty()
    }
}

pub open spec fn texts(v: Seq<String>) -> Seq<Seq<char>> {
    v.map_values(|s: String| s@)
}

fn indent(n: usize) -> (r: String)
    ensures
        r@ == spaces(n as nat),
{
    let mut s = String::new();
    let mut k: usize = 0;
    while k < n
        invariant
            0 <= k <= n,
            s@ =~= spaces(k as nat),
        decreases n - k,
    {
        proof {
            reveal_strlit(" ");
            assert(" "@ =~= seq![' ']);
        }
        s.append(" ");
        k = k + 1;
        assert(s@ =~= spaces(k as nat));
    }
    s
}

impl Filesystem {
    /// The picture of the whole tree, the root shown as `/` two spaces in.
    pub fn pretty_print(&self) -> (r: Vec<String>)
        requires
            wf(self@),
            2 * self@.len() + 2 <= usize::MAX,
        ensures
            texts(r@) == render_dir(self@, 0, seq!['/'], 2),
    {
        let mut out: Vec<String> = Vec::new();
        let root = String::from_str("/");
        proof {
            reveal_strlit("/");
            assert("/"@ =~= seq!['/']);
        }
        self.pretty_print_with_offset(0, root, 2, &mut out);
        assert(texts(out@) =~= render_dir(self@, 0, seq!['/'], 2));
        out
    }

    fn pretty_print_with_offset(&self, node: usize, label: String, offset: usize, out: &mut Vec<String>)
        requires
            wf(self@),
            node < self@.len(),
            offset + 2 * (self@.len() - node) <= usize::MAX,
        ensures
            texts(final(out)@) == texts(old(out)@) + render_dir(self@, node as int, label@, offset as nat),
        decreases self@.len() - node, 1int,
    {
        let ghost g = self@;
        let ghost i = node as int;
        let ghost start = texts(out@);
        let mut head = indent(offset);
        head.append(label.as_str());
        out.push(head);
        let ghost after_head = texts(out@);
        assert(after_head =~= start + seq![spaces(offset as nat) + label@]);
        let children = &self.nodes[node].children;
        assert(g[i] == self.nodes@[i]@);
        let ghost cs = g[i].children;
        let n = children.len();
        let mut j: usize = 0;
        while j < n
            invariant
                g == self@,
                wf(g),
                i == node,
                0 <= i < g.len(),
                offset + 2 * (g.len() - i) <= usize::MAX,
                cs == g[i].children,
                cs == children@.map_values(|e: Entry| e@),
                n == children.len(),
                0 <= j <= n,
                texts(out@) == after_head + render_entries(g, i, j as int, (offset + 2) as nat),
            decreases n - j,
        {
            assert(cs[j as int] == children@[j as int]@);
            let ghost before = texts(out@);
            match &children[j] {
                Entry::File(size, name) => {
                    let mut line = indent(offset + 2);
                    line.append(name.as_str());
                    line.append(" ");
                    let digits = size_text(*size);
                    line.append(digits.as_str());
                    proof {
                        reveal_strlit(" ");
                        assert(" "@ =~= seq![' ']);
                    }
                    out.push(line);
                    assert(texts(out@) =~= before + seq![
                        spaces((offset + 2) as nat) + name@ + seq![' '] + decimal_text(*size as nat),
                    ]);
                },
                Entry::Dir(k, name) => {
                    assert(i < *k < g.len());
                    self.pretty_print_with_offset(*k, name.clone(), offset + 2, out);
                },
            }
            assert(texts(out@) =~= after_head + render_entries(g, i, j + 1, (offset + 2) as nat));
            j = j + 1;
        }
        assert(texts(out@) =~= start + render_dir(g, i, label@, offset as nat));
    }
}

} // verus!
