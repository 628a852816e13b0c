//! A directory tree rebuilt from a transcript of `cd` and `ls` commands, kept
//! as a table of directory nodes: children and parents are indices into the
//! table, so the upward link owns nothing.
use vstd::prelude::*;

use crate::sizes::dir_size;
use crate::transcript::{commands_view, descs_view, Command, CommandModel, DescModel, FileDesc};

verus! {

/// One entry of a directory: a file with its size, or a subdirectory with the
/// index of its node; both carry their name.
pub enum Entry {
    File(usize, String),
    Dir(usize, String),
}

/// A directory: its entries, and the index of the directory that holds it
/// (none for the root).
pub struct DirNode {
    pub children: Vec<Entry>,
    pub parent: Option<usize>,
}

/// The tree as a table of directories; the root is at index 0.
pub struct Filesystem {
    pub nodes: Vec<DirNode>,
}

pub ghost enum EntryModel {
    File(usize, Seq<char>),
    Dir(nat, Seq<char>),
}

pub ghost struct NodeModel {
    pub children: Seq<EntryModel>,
    pub parent: Option<nat>,
}

impl View for Entry {
    type V = EntryModel;

    open spec fn view(&self) -> EntryModel {
        match self {
            Entry::File(size, name) => EntryModel::File(*size, name@),
            Entry::Dir(node, name) => EntryModel::Dir(*node as nat, name@),
        }
    }
}

impl View for DirNode {
    type V = NodeModel;

    open spec fn view(&self) -> NodeModel {
        NodeModel {
            children: self.children@.map_values(|e: Entry| e@),
            parent: match self.parent {
                Some(p) => Some(p as nat),
                None => None,
            },
        }
    }
}

impl View for Filesystem {
    type V = Seq<NodeModel>;

    open spec fn view(&self) -> Seq<NodeModel> {
        self.nodes@.map_values(|n: DirNode| n@)
    }
}

pub open spec fn entry_name(e: EntryModel) -> Seq<char> {
    match e {
        EntryModel::File(_, n) => n,
        EntryModel::Dir(_, n) => n,
    }
}

pub open spec fn desc_name(d: DescModel) -> Seq<char> {
    match d {
        DescModel::File(_, n) => n,
        DescModel::Directory(n) => n,
    }
}

/// Position of the first entry of `cs` named `name`.
pub open spec fn find_name(cs: Seq<EntryModel>, name: Seq<char>) -> Option<int>
    decreases cs.len(),
{
    if cs.len() == 0 {
        None
    } else {
        match find_name(cs.drop_last(), name) {
            Some(i) => Some(i),
            None => if entry_name(cs.last()) == name {
                Some(cs.len() - 1)
            } else {
                None
            },
        }
    }
}

/// The table holds a tree rooted at 0: every subdirectory entry points to a
/// later node whose parent is the directory holding the entry, every node but
/// the root has an earlier parent, and names are unique among siblings.
pub open spec fn wf(fs: Seq<NodeModel>) -> bool {
    &&& fs.len() > 0
    &&& fs[0].parent is None
    &&& forall|k: int| 0 < k < fs.len() ==> match #[trigger] fs[k].parent {
        Some(p) => p < k,
        None => false,
    }
    &&& forall|i: int, j: int|
        0 <= i < fs.len() && 0 <= j < fs[i].children.len() ==> match #[trigger] fs[i].children[j] {
            EntryModel::Dir(k, _) => i < k < fs.len() && fs[k as int].parent == Some(i as nat),
            EntryModel::File(_, _) => true,
        }
    &&& forall|i: int, j1: int, j2: int|
        0 <= i < fs.len() && 0 <= j1 < j2 < fs[i].children.len() ==> entry_name(
            #[trigger] fs[i].children[j1],
        ) != entry_name(#[trigger] fs[i].children[j2])
}

/// The table of a tree that holds only the empty root.
pub open spec fn empty_tree() -> Seq<NodeModel> {
    seq![NodeModel { children: Seq::empty(), parent: None }]
}

/// Lists one entry in directory `cur`: a file replaces whatever had its name;
/// a subdirectory keeps an existing subdirectory of that name, and otherwise
/// becomes a new empty node.
pub open spec fn apply_desc(fs: Seq<NodeModel>, cur: int, d: DescModel) -> Seq<NodeModel> {
    let cs = fs[cur].children;
    let node = fs[cur];
    match d {
        DescModel::File(size, name) => {
            let e = EntryModel::File(size, name);
            match find_name(cs, name) {
                Some(i) => fs.update(cur, NodeModel { children: cs.update(i, e), ..node }),
                None => fs.update(cur, NodeModel { children: cs.push(e), ..node }),
            }
        },
        DescModel::Directory(name) => {
            let e = EntryModel::Dir(fs.len(), name);
            let fresh = NodeModel { children: Seq::empty(), parent: Some(cur as nat) };
            match find_name(cs, name) {
                Some(i) => if cs[i] is Dir {
                    fs
                } else {
                    fs.update(cur, NodeModel { children: cs.update(i, e), ..node }).push(fresh)
                },
                None => fs.update(cur, NodeModel { children: cs.push(e), ..node }).push(fresh),
            }
        },
    }
}

/// Lists the entries `ds`, in order, in directory `cur`.
pub open spec fn apply_descs(fs: Seq<NodeModel>, cur: int, ds: Seq<DescModel>) -> Seq<NodeModel>
    decreases ds.len(),
{
    if ds.len() == 0 {
        fs
    } else {
        apply_desc(apply_descs(fs, cur, ds.drop_last()), cur, ds.last())
    }
}

/// One command applied to a tree and a current directory; `None` where the
/// command cannot be followed (`cd ..` at the root, `cd` into a name that is
/// not a subdirectory).
pub open spec fn step(fs: Seq<NodeModel>, cur: int, c: CommandModel) -> Option<(Seq<NodeModel>, int)> {
    match c {
        CommandModel::CdRoot => Some((fs, 0)),
        CommandModel::CdUp => match fs[cur].parent {
            Some(p) => Some((fs, p as int)),
            None => None,
        },
        CommandModel::CdDir(name) => match find_name(fs[cur].children, name) {
            Some(i) => match fs[cur].children[i] {
                EntryModel::Dir(k, _) => Some((fs, k as int)),
                EntryModel::File(_, _) => None,
            },
            None => None,
        },
        CommandModel::Ls(ds) => Some((apply_descs(fs, cur, ds), cur)),
    }
}

/// The tree and current directory after the commands `cs`, starting from an
/// empty root; `None` once a command cannot be followed.
pub open spec fn run(cs: Seq<CommandModel>) -> Option<(Seq<NodeModel>, int)>
    decreases cs.len(),
{
    if cs.len() == 0 {
        Some((empty_tree(), 0))
    } else {
        match run(cs.drop_last()) {
            Some((fs, cur)) => step(fs, cur, cs.last()),
            None => None,
        }
    }
}

proof fn lemma_find_name(cs: Seq<EntryModel>, name: Seq<char>)
    ensures
        match find_name(cs, name) {
            Some(i) => 0 <= i < cs.len() && entry_name(cs[i]) == name && forall|j: int|
                0 <= j < i ==> entry_name(#[trigger] cs[j]) != name,
            None => forall|j: int| 0 <= j < cs.len() ==> entry_name(#[trigger] cs[j]) != name,
        },
    decreases cs.len(),
{
    if cs.len() > 0 {
        let t = cs.drop_last();
        lemma_find_name(t, name);
        assert forall|j: int| 0 <= j < t.len() implies t[j] == cs[j] by {}
    }
}

proof fn lemma_apply_desc_wf(fs: Seq<NodeModel>, cur: int, d: DescModel)
    requires
        wf(fs),
        0 <= cur < fs.len(),
    ensures
        wf(apply_desc(fs, cur, d)),
        apply_desc(fs, cur, d).len() >= fs.len(),
{
    let cs = fs[cur].children;
    lemma_find_name(cs, desc_name(d));
    let r = apply_desc(fs, cur, d);
    assert forall|k: int| 0 < k < r.len() implies match #[trigger] r[k].parent {
        Some(p) => p < k,
        None => false,
    } by {
        if k < fs.len() {
            assert(r[k].parent == fs[k].parent);
        }
    }
    assert forall|k: int| 0 <= k < fs.len() implies #[trigger] r[k].parent == fs[k].parent by {}
    assert forall|i: int, j: int|
        0 <= i < r.len() && 0 <= j < r[i].children.len() implies match #[trigger] r[i].children[j] {
        EntryModel::Dir(k, _) => i < k < r.len() && r[k as int].parent == Some(i as nat),
        EntryModel::File(_, _) => true,
    } by {
        if i != cur && i < fs.len() {
            assert(r[i] == fs[i]);
            assert(fs[i].children[j] == r[i].children[j]);
            match fs[i].children[j] {
                EntryModel::Dir(k, _) => {
                    assert(r[k as int].parent == fs[k as int].parent);
                },
                EntryModel::File(_, _) => {},
            }
        } else if i == cur {
            if j < cs.len() && r[i].children[j] == cs[j] {
                match cs[j] {
                    EntryModel::Dir(k, _) => {
                        assert(r[k as int].parent == fs[k as int].parent);
                    },
                    EntryModel::File(_, _) => {},
                }
            } else {
                match r[i].children[j] {
                    EntryModel::Dir(k, _) => {
                        assert(k == fs.len());
                        assert(r[k as int].parent == Some(cur as nat));
                    },
                    EntryModel::File(_, _) => {},
                }
            }
        }
    }
    assert forall|i: int, j1: int, j2: int|
        0 <= i < r.len() && 0 <= j1 < j2 < r[i].children.len() implies entry_name(
        #[trigger] r[i].children[j1],
    ) != entry_name(#[trigger] r[i].children[j2]) by {
        if i != cur && i < fs.len() {
            assert(r[i] == fs[i]);
        } else if i == cur {
            if j2 < cs.len() {
                assert(entry_name(r[i].children[j1]) == entry_name(cs[j1]) || entry_name(
                    r[i].children[j1],
                ) == desc_name(d));
            }
        }
    }
}

proof fn lemma_run_stays_none(cs: Seq<CommandModel>, n: int)
    requires
        0 <= n <= cs.len(),
        run(cs.take(n)) is None,
    ensures
        run(cs) is None,
    decreases cs.len() - n,
{
    if n < cs.len() {
        assert(cs.take(n + 1).drop_last() =~= cs.take(n));
        lemma_run_stays_none(cs, n + 1);
    } else {
        assert(cs.take(n) =~= cs);
    }
}

/// The entry `e` is what listing `d` leaves under `d`'s name.
pub open spec fn entry_matches(e: EntryModel, d: DescModel) -> bool {
    match d {
        DescModel::File(size, name) => e == EntryModel::File(size, name),
        DescModel::Directory(name) => e is Dir && entry_name(e) == name,
    }
}

/// No two entries of the listing `ds` share a name.
pub open spec fn distinct_names(ds: Seq<DescModel>) -> bool {
    forall|i: int, j: int| 0 <= i < j < ds.len() ==> desc_name(ds[i]) != desc_name(ds[j])
}

/// Directory `cur` of `fs` holds, under the name of each of `ds`, what that
/// entry lists.
pub open spec fn holds_listing(fs: Seq<NodeModel>, cur: int, ds: Seq<DescModel>) -> bool {
    forall|j: int|
        0 <= j < ds.len() ==> match find_name(fs[cur].children, desc_name(#[trigger] ds[j])) {
            Some(p) => entry_matches(fs[cur].children[p], ds[j]),
            None => false,
        }
}

proof fn lemma_apply_desc_keeps_others(fs: Seq<NodeModel>, cur: int, d: DescModel, n: Seq<char>)
    requires
        wf(fs),
        0 <= cur < fs.len(),
        n != desc_name(d),
    ensures
        ({
            let r = apply_desc(fs, cur, d);
            match find_name(fs[cur].children, n) {
                Some(p) => find_name(r[cur].children, n) == Some(p) && r[cur].children[p]
                    == fs[cur].children[p],
                None => find_name(r[cur].children, n) is None,
            }
        }),
{
    let r = apply_desc(fs, cur, d);
    let cs = fs[cur].children;
    let rs = r[cur].children;
    lemma_find_name(cs, desc_name(d));
    lemma_find_name(cs, n);
    lemma_find_name(rs, n);
    assert(rs.len() >= cs.len());
    assert forall|j: int| 0 <= j < rs.len() && entry_name(rs[j]) == n implies j < cs.len() && rs[j]
        == cs[j] by {}
    match find_name(cs, n) {
        Some(p) => {
            assert(rs[p] == cs[p]);
            match find_name(rs, n) {
                Some(q) => {
                    assert(rs[q] == cs[q]);
                },
                None => {},
            }
        },
        None => {
            match find_name(rs, n) {
                Some(q) => {
                    assert(rs[q] == cs[q]);
                },
                None => {},
            }
        },
    }
}

proof fn lemma_apply_desc_holds(fs: Seq<NodeModel>, cur: int, d: DescModel)
    requires
        wf(fs),
        0 <= cur < fs.len(),
    ensures
        match find_name(apply_desc(fs, cur, d)[cur].children, desc_name(d)) {
            Some(p) => entry_matches(apply_desc(fs, cur, d)[cur].children[p], d),
            None => false,
        },
{
    let r = apply_desc(fs, cur, d);
    let cs = fs[cur].children;
    let rs = r[cur].children;
    lemma_find_name(cs, desc_name(d));
    lemma_find_name(rs, desc_name(d));
    match find_name(cs, desc_name(d)) {
        Some(p) => {
            assert(entry_name(rs[p]) == desc_name(d));
            match find_name(rs, desc_name(d)) {
                Some(q) => {
                    if q < p {
                        assert(rs[q] == cs[q]);
                    }
                },
                None => {},
            }
        },
        None => {
            assert(entry_name(rs[rs.len() - 1]) == desc_name(d));
            match find_name(rs, desc_name(d)) {
                Some(q) => {
                    if q < rs.len() - 1 {
                        assert(rs[q] == cs[q]);
                    }
                },
                None => {},
            }
        },
    }
}

/// After a listing of entries with distinct names, the directory holds what
/// the listing shows under each of its names.
pub proof fn lemma_apply_descs_holds(fs: Seq<NodeModel>, cur: int, ds: Seq<DescModel>)
    requires
        wf(fs),
        0 <= cur < fs.len(),
        distinct_names(ds),
    ensures
        wf(apply_descs(fs, cur, ds)),
        apply_descs(fs, cur, ds).len() >= fs.len(),
        holds_listing(apply_descs(fs, cur, ds), cur, ds),
    decreases ds.len(),
{
    if ds.len() > 0 {
        let t = ds.drop_last();
        let d = ds.last();
        assert(distinct_names(t));
        lemma_apply_descs_holds(fs, cur, t);
        let g = apply_descs(fs, cur, t);
        lemma_apply_desc_wf(g, cur, d);
        lemma_apply_desc_holds(g, cur, d);
        let r = apply_desc(g, cur, d);
        assert forall|j: int| 0 <= j < ds.len() implies match find_name(
            r[cur].children,
            desc_name(#[trigger] ds[j]),
        ) {
            Some(p) => entry_matches(r[cur].children[p], ds[j]),
            None => false,
        } by {
            if j < ds.len() - 1 {
                assert(ds[j] == t[j]);
                lemma_apply_desc_keeps_others(g, cur, d, desc_name(ds[j]));
            }
        }
    }
}

proof fn lemma_apply_descs_unchanged(fs: Seq<NodeModel>, cur: int, ds: Seq<DescModel>, all: Seq<DescModel>)
    requires
        wf(fs),
        0 <= cur < fs.len(),
        holds_listing(fs, cur, all),
        forall|j: int| 0 <= j < ds.len() ==> all.contains(#[trigger] ds[j]),
    ensures
        apply_descs(fs, cur, ds) == fs,
    decreases ds.len(),
{
    if ds.len() > 0 {
        let t = ds.drop_last();
        let d = ds.last();
        assert forall|j: int| 0 <= j < t.len() implies all.contains(#[trigger] t[j]) by {
            assert(t[j] == ds[j]);
        }
        lemma_apply_descs_unchanged(fs, cur, t, all);
        assert(all.contains(ds[ds.len() - 1]));
        let k = choose|k: int| 0 <= k < all.len() && all[k] == d;
        let cs = fs[cur].children;
        lemma_find_name(cs, desc_name(d));
        match find_name(cs, desc_name(all[k])) {
            Some(p) => {
                match d {
                    DescModel::File(_, _) => {
                        assert(cs.update(p, cs[p]) =~= cs);
                        assert(fs.update(cur, NodeModel { children: cs, ..fs[cur] }) =~= fs);
                    },
                    DescModel::Directory(_) => {},
                }
            },
            None => {},
        }
    }
}

/// Listing a directory with entries it already holds, as an earlier listing
/// recorded them, leaves the tree unchanged.
pub proof fn lemma_relisting_recorded_contents(fs: Seq<NodeModel>, cur: int, ds: Seq<DescModel>)
    requires
        wf(fs),
        0 <= cur < fs.len(),
        holds_listing(fs, cur, ds),
    ensures
        apply_descs(fs, cur, ds) == fs,
{
    lemma_apply_descs_unchanged(fs, cur, ds, ds);
}

/// Listing a directory again with the same entries, of distinct names, leaves
/// the tree just as the first listing left it, and so every total size too.
pub proof fn lemma_relisting_keeps_tree(fs: Seq<NodeModel>, cur: int, ds: Seq<DescModel>)
    requires
        wf(fs),
        0 <= cur < fs.len(),
        distinct_names(ds),
    ensures
        apply_descs(apply_descs(fs, cur, ds), cur, ds) == apply_descs(fs, cur, ds),
        forall|i: int|
            dir_size(apply_descs(apply_descs(fs, cur, ds), cur, ds), i) == #[trigger] dir_size(
                apply_descs(fs, cur, ds),
                i,
            ),
{
    lemma_apply_descs_holds(fs, cur, ds);
    lemma_relisting_recorded_contents(apply_descs(fs, cur, ds), cur, ds);
}

impl Entry {
    pub fn name(&self) -> (r: &String)
        ensures
            r@ == entry_name(self@),
    {
        match self {
            Entry::File(_, name) => name,
            Entry::Dir(_, name) => name,
        }
    }
}

impl Filesystem {
    /// A tree that holds only an empty root.
    pub fn new() -> (r: Self)
        ensures
            r@ == empty_tree(),
            wf(r@),
    {
        let root = DirNode { children: Vec::new(), parent: None };
        let mut nodes = Vec::new();
        nodes.push(root);
        let r = Filesystem { nodes };
        assert(r@[0].children =~= Seq::<EntryModel>::empty());
        assert(r@ =~= empty_tree());
        r
    }

    /// Position of the first entry of directory `cur` named `name`.
    pub fn find_child(&self, cur: usize, name: &String) -> (r: Option<usize>)
        requires
            cur < self@.len(),
        ensures
            match r {
                Some(i) => find_name(self@[cur as int].children, name@) == Some(i as int),
                None => find_name(self@[cur as int].children, name@) is None,
            },
    {
        let ghost cs = self@[cur as int].children;
        proof {
            lemma_find_name(cs, name@);
        }
        let children = &self.nodes[cur].children;
        assert(self@[cur as int] == self.nodes@[cur as int]@);
        assert(children@.map_values(|e: Entry| e@) == cs);
        let mut i: usize = 0;
        while i < children.len()
            invariant
                0 <= i <= children.len(),
                cs == children@.map_values(|e: Entry| e@),
                cur < self@.len(),
                cs == self@[cur as int].children,
                forall|j: int| 0 <= j < i ==> entry_name(#[trigger] cs[j]) != name@,
            decreases children.len() - i,
        {
            let same = children[i].name().eq(name);
            if same {
                assert(cs[i as int] == children@[i as int]@);
                assert(entry_name(cs[i as int]) == name@);
                proof {
                    lemma_find_name(cs, name@);
                    match find_name(cs, name@) {
                        Some(k) => {
                            if k < i {
                                assert(entry_name(cs[k]) != name@);
                            } else if k > i {
                                assert(entry_name(cs[i as int]) != name@);
                            }
                        },
                        None => {
                            assert(entry_name(cs[i as int]) != name@);
                        },
                    }
                }
                return Some(i);
            }
            assert(cs[i as int] == children@[i as int]@);
            i = i + 1;
        }
        proof {
            lemma_find_name(cs, name@);
        }
        None
    }

    /// Lists the entry `d` in directory `cur`.
    pub fn list_entry(&mut self, cur: usize, d: &FileDesc)
        requires
            wf(old(self)@),
            cur < old(self)@.len(),
        ensures
            final(self)@ == apply_desc(old(self)@, cur as int, d@),
            wf(final(self)@),
    {
        let ghost fs = self@;
        let ghost cs = fs[cur as int].children;
        proof {
            lemma_apply_desc_wf(fs, cur as int, d@);
            lemma_find_name(cs, desc_name(d@));
        }
        assert(fs[cur as int] == self.nodes@[cur as int]@);
        match d {
            FileDesc::File(size, name) => {
                let found = self.find_child(cur, name);
                let e = Entry::File(*size, name.clone());
                match found {
                    Some(i) => {
                        self.nodes[cur].children[i] = e;
                        assert(self@[cur as int].children =~= cs.update(i as int, e@));
                    },
                    None => {
                        self.nodes[cur].children.push(e);
                        assert(self@[cur as int].children =~= cs.push(e@));
                    },
                }
            },
            FileDesc::Directory(name) => {
                let found = self.find_child(cur, name);
                let fresh_index = self.nodes.len();
                let e = Entry::Dir(fresh_index, name.clone());
                let fresh = DirNode { children: Vec::new(), parent: Some(cur) };
                assert(fresh@.children =~= Seq::<EntryModel>::empty());
                match found {
                    Some(i) => {
                        let is_dir = match &self.nodes[cur].children[i] {
                            Entry::Dir(_, _) => true,
                            Entry::File(_, _) => false,
                        };
                        assert(is_dir == (cs[i as int] is Dir));
                        if is_dir {
                            assert(self@ =~= apply_desc(fs, cur as int, d@));
                            return;
                        }
                        self.nodes[cur].children[i] = e;
                        assert(self@[cur as int].children =~= cs.update(i as int, e@));
                        self.nodes.push(fresh);
                    },
                    None => {
                        self.nodes[cur].children.push(e);
                        assert(self@[cur as int].children =~= cs.push(e@));
                        self.nodes.push(fresh);
                    },
                }
            },
        }
        assert(self@ =~= apply_desc(fs, cur as int, d@));
    }

    /// Lists the entries `ds`, in order, in directory `cur`.
    pub fn list_entries(&mut self, cur: usize, ds: &Vec<FileDesc>)
        requires
            wf(old(self)@),
            cur < old(self)@.len(),
        ensures
            final(self)@ == apply_descs(old(self)@, cur as int, descs_view(ds@)),
            wf(final(self)@),
            final(self)@.len() >= old(self)@.len(),
    {
        let ghost fs = self@;
        let ghost dv = descs_view(ds@);
        let mut i: usize = 0;
        while i < ds.len()
            invariant
                0 <= i <= ds.len(),
                dv == descs_view(ds@),
                wf(self@),
                cur < fs.len() <= self@.len(),
                self@ == apply_descs(fs, cur as int, dv.take(i as int)),
            decreases ds.len() - i,
        {
            self.list_entry(cur, &ds[i]);
            assert(dv.take(i + 1).drop_last() =~= dv.take(i as int));
            proof {
                lemma_apply_desc_wf(apply_descs(fs, cur as int, dv.take(i as int)), cur as int, dv[i as int]);
            }
            i = i + 1;
        }
        assert(dv.take(ds.len() as int) =~= dv);
    }

    /// Rebuilds the tree that the commands describe, starting from an empty
    /// root with the root as current directory; `None` when a `cd ..` is
    /// given at the root or a `cd` names no subdirectory.
    pub fn build(commands: &[Command]) -> (r: Option<Filesystem>)
        ensures
            match run(commands_view(commands@)) {
                Some((fs, _)) => r is Some && r->Some_0@ == fs && wf(fs),
                None => r is None,
            },
    {
        let ghost cv = commands_view(commands@);
        let mut fs = Filesystem::new();
        let mut cur: usize = 0;
        let mut i: usize = 0;
        while i < commands.len()
            invariant
                0 <= i <= commands.len(),
                cv == commands_view(commands@),
                wf(fs@),
                cur < fs@.len(),
                run(cv.take(i as int)) == Some((fs@, cur as int)),
            decreases commands.len() - i,
        {
            assert(cv.take(i + 1).drop_last() =~= cv.take(i as int));
            assert(cv[i as int] == commands@[i as int]@);
            assert(fs@[cur as int] == fs.nodes@[cur as int]@);
            match &commands[i] {
                Command::CdRoot => {
                    cur = 0;
                },
                Command::CdUp => {
                    match fs.nodes[cur].parent {
                        Some(p) => {
                            assert(fs@[cur as int].parent == Some(p as nat));
                            cur = p;
                        },
                        None => {
                            proof {
                                lemma_run_stays_none(cv, i + 1);
                            }
                            return None;
                        },
                    }
                },
                Command::CdDir(name) => {
                    proof {
                        lemma_find_name(fs@[cur as int].children, name@);
                    }
                    match fs.find_child(cur, name) {
                        Some(j) => {
                            assert(fs@[cur as int].children[j as int] == fs.nodes@[cur as int].children@[j as int]@);
                            match &fs.nodes[cur].children[j] {
                                Entry::Dir(k, _) => {
                                    cur = *k;
                                },
                                Entry::File(_, _) => {
                                    proof {
                                        lemma_run_stays_none(cv, i + 1);
                                    }
                                    return None;
                                },
                            }
                        },
                        None => {
                            proof {
                                lemma_run_stays_none(cv, i + 1);
                            }
                            return None;
                        },
                    }
                },
                Command::Ls(ds) => {
                    fs.list_entries(cur, ds);
                },
            }
            i = i + 1;
        }
        assert(cv.take(commands.len() as int) =~= cv);
        Some(fs)
    }
}

} // verus!
