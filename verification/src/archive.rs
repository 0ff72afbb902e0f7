//! The archive tree and the per-game mod-root checker: deciding where the
//! `Data`-relative root of a downloaded archive is.

use vstd::prelude::*;

use crate::text::{
    chars_of, eq_chars, eq_ic, eq_ic_chars, eq_ic_str, lower, lower_vec, rsplit_once, rsplit_once_vec,
    split_once, split_once_vec, starts_with,
    push_char, push_str, slice_vec, string_of,
};

verus! {

broadcast use vstd::std_specs::vec::axiom_vec_index_decreases;

/// One listed archive entry.
#[derive(Debug, Clone)]
pub struct ArchiveEntry {
    /// `/`-joined path inside the archive.
    pub path: String,
    pub is_dir: bool,
}

/// A node in the archive tree.
#[derive(Debug)]
pub enum TreeNode {
    File { name: String },
    Dir { name: String, tree: ArchiveTree },
}

/// A case-insensitive tree of an archive's contents. Entries are kept sorted
/// by their ASCII-lowercased key, one entry per key.
#[derive(Debug)]
pub struct ArchiveTree {
    /// Lowercased entry name and node, in key order.
    pub entries: Vec<(String, TreeNode)>,
}

/// The mathematical model of a node.
pub enum NodeM {
    File { name: Seq<char> },
    Dir { name: Seq<char>, tree: Seq<(Seq<char>, NodeM)> },
}

/// The model of a tree: its `(key, node)` entries in order.
pub type TreeM = Seq<(Seq<char>, NodeM)>;

impl TreeNode {
    pub open spec fn model(&self) -> NodeM
        decreases self, 0int,
    {
        match self {
            TreeNode::File { name } => NodeM::File { name: name@ },
            TreeNode::Dir { name, tree } => NodeM::Dir { name: name@, tree: tree.model() },
        }
    }
}

impl ArchiveTree {
    pub open spec fn model(&self) -> TreeM
        decreases self, 1int,
    {
        entries_model(self.entries@)
    }
}

pub open spec fn entries_model(v: Seq<(String, TreeNode)>) -> TreeM
    decreases v, 2int,
{
    if v.len() == 0 {
        Seq::empty()
    } else {
        entries_model(v.drop_last()).push((v.last().0@, v.last().1.model()))
    }
}


/// A path separator inside an archive listing.
pub open spec fn is_sep(c: char) -> bool {
    c == '/' || c == '\\'
}

/// The index of the first separator.
pub open spec fn find_sep(s: Seq<char>) -> Option<int>
    decreases s.len(),
{
    if s.len() == 0 {
        None
    } else if is_sep(s[0]) {
        Some(0)
    } else {
        match find_sep(s.drop_first()) {
            Some(i) => Some(i + 1),
            None => None,
        }
    }
}

/// The non-empty components of a path split on `/` and `\`.
pub open spec fn path_parts(s: Seq<char>) -> Seq<Seq<char>>
    decreases s.len(),
{
    match find_sep(s) {
        Some(i) => {
            if 0 <= i < s.len() {
                (if i > 0 { seq![s.take(i)] } else { seq![] }) + path_parts(s.skip(i + 1))
            } else {
                seq![]
            }
        },
        None => if s.len() > 0 { seq![s] } else { seq![] },
    }
}

/// Lexicographic order on characters by code point, which is the byte order
/// of their UTF-8 encodings and so the order of `String` keys.
pub open spec fn key_lt(a: Seq<char>, b: Seq<char>) -> bool
    decreases a.len(),
{
    if a.len() == 0 {
        b.len() > 0
    } else if b.len() == 0 {
        false
    } else if a[0] != b[0] {
        a[0] < b[0]
    } else {
        key_lt(a.drop_first(), b.drop_first())
    }
}

/// `key_lt` is a strict total order.
pub proof fn lemma_key_lt_order(a: Seq<char>, b: Seq<char>, c: Seq<char>)
    ensures
        !key_lt(a, a),
        key_lt(a, b) ==> !key_lt(b, a),
        a != b ==> key_lt(a, b) || key_lt(b, a),
        key_lt(a, b) && key_lt(b, c) ==> key_lt(a, c),
    decreases a.len(),
{
    if a.len() > 0 {
        lemma_key_lt_order(a.drop_first(), b.drop_first(), c.drop_first());
        if b.len() > 0 && a[0] == b[0] && a != b {
            assert(a.drop_first() != b.drop_first()) by {
                if a.drop_first() == b.drop_first() {
                    assert(a =~= seq![a[0]] + a.drop_first());
                    assert(b =~= seq![b[0]] + b.drop_first());
                }
            }
        }
    } else {
        if b.len() == 0 {
            assert(a =~= b);
        }
    }
}

/// The index of the first entry with `key`.
pub open spec fn lookup(t: TreeM, key: Seq<char>) -> Option<int>
    decreases t.len(),
{
    if t.len() == 0 {
        None
    } else if t[0].0 == key {
        Some(0)
    } else {
        match lookup(t.drop_first(), key) {
            Some(i) => Some(i + 1),
            None => None,
        }
    }
}

/// Where `key` goes in a key-ordered tree: before the first key not below it.
pub open spec fn insert_pos(t: TreeM, key: Seq<char>) -> int
    decreases t.len(),
{
    if t.len() == 0 {
        0
    } else if !key_lt(t[0].0, key) {
        0
    } else {
        insert_pos(t.drop_first(), key) + 1
    }
}

/// Add one path to a tree. Existing entries win (their spelling and kind
/// stay); a path running through a file stops there.
pub open spec fn insert_path(t: TreeM, parts: Seq<Seq<char>>, is_dir: bool) -> TreeM
    decreases parts.len(),
{
    if parts.len() == 0 {
        t
    } else {
        let key = lower(parts[0]);
        match lookup(t, key) {
            Some(i) => {
                if parts.len() == 1 {
                    t
                } else {
                    match t[i].1 {
                        NodeM::Dir { name, tree } => t.update(
                            i,
                            (t[i].0, NodeM::Dir { name, tree: insert_path(tree, parts.drop_first(), is_dir) }),
                        ),
                        NodeM::File { .. } => t,
                    }
                }
            },
            None => {
                let node = if parts.len() == 1 {
                    if is_dir {
                        NodeM::Dir { name: parts[0], tree: Seq::empty() }
                    } else {
                        NodeM::File { name: parts[0] }
                    }
                } else {
                    NodeM::Dir { name: parts[0], tree: insert_path(Seq::empty(), parts.drop_first(), is_dir) }
                };
                t.insert(insert_pos(t, key), (key, node))
            },
        }
    }
}

/// The tree a listing builds: each entry inserted in order.
pub open spec fn build(listing: Seq<(Seq<char>, bool)>) -> TreeM
    decreases listing.len(),
{
    if listing.len() == 0 {
        Seq::empty()
    } else {
        insert_path(build(listing.drop_last()), path_parts(listing.last().0), listing.last().1)
    }
}

/// A listing as `(path, is_dir)` pairs.
pub open spec fn listing_model(entries: Seq<ArchiveEntry>) -> Seq<(Seq<char>, bool)> {
    entries.map_values(|e: ArchiveEntry| (e.path@, e.is_dir))
}

pub proof fn lemma_entries_model(v: Seq<(String, TreeNode)>)
    ensures
        entries_model(v).len() == v.len(),
        forall|i: int| 0 <= i < v.len() ==> #[trigger] entries_model(v)[i] == (v[i].0@, v[i].1.model()),
    decreases v.len(),
{
    if v.len() > 0 {
        lemma_entries_model(v.drop_last());
        assert forall|i: int| 0 <= i < v.len() implies #[trigger] entries_model(v)[i] == (v[i].0@, v[i].1.model()) by {
            if i < v.len() - 1 {
                assert(v.drop_last()[i] == v[i]);
            }
        }
    }
}

/// Two entry vectors with pointwise equal models have equal models.
pub proof fn lemma_entries_model_ext(v: Seq<(String, TreeNode)>, m: TreeM)
    requires
        v.len() == m.len(),
        forall|i: int| 0 <= i < v.len() ==> (v[i].0@, v[i].1.model()) == #[trigger] m[i],
    ensures
        entries_model(v) == m,
{
    lemma_entries_model(v);
    assert(entries_model(v) =~= m);
}

pub proof fn lemma_lookup(t: TreeM, key: Seq<char>)
    ensures
        match lookup(t, key) {
            Some(i) => 0 <= i < t.len() && t[i].0 == key && forall|j: int| 0 <= j < i ==> t[j].0 != key,
            None => forall|j: int| 0 <= j < t.len() ==> t[j].0 != key,
        },
    decreases t.len(),
{
    if t.len() > 0 && t[0].0 != key {
        lemma_lookup(t.drop_first(), key);
        assert forall|j: int| 1 <= j < t.len() implies t[j] == t.drop_first()[j - 1] by {}
    }
}

pub proof fn lemma_lookup_at(t: TreeM, key: Seq<char>, i: int)
    requires
        0 <= i <= t.len(),
        i < t.len() ==> t[i].0 == key,
        forall|j: int| 0 <= j < i ==> t[j].0 != key,
    ensures
        lookup(t, key) == (if i < t.len() { Some(i) } else { None::<int> }),
{
    lemma_lookup(t, key);
    match lookup(t, key) {
        Some(k) => {
            if k < i {
            } else if k > i {
                assert(t[i].0 != key);
            }
        },
        None => {},
    }
}

pub proof fn lemma_insert_pos_at(t: TreeM, key: Seq<char>, i: int)
    requires
        0 <= i <= t.len(),
        i < t.len() ==> !key_lt(t[i].0, key),
        forall|j: int| 0 <= j < i ==> key_lt(#[trigger] t[j].0, key),
    ensures
        insert_pos(t, key) == i,
    decreases i,
{
    if i > 0 {
        assert forall|j: int| 0 <= j < i - 1 implies key_lt(#[trigger] t.drop_first()[j].0, key) by {
            assert(t.drop_first()[j] == t[j + 1]);
        }
        lemma_insert_pos_at(t.drop_first(), key, i - 1);
    }
}

/// Exec `key_lt` over character runs.
pub fn key_lt_exec(a: &[char], b: &[char]) -> (r: bool)
    ensures
        r == key_lt(a@, b@),
{
    let mut i: usize = 0;
    assert(a@.skip(0) =~= a@);
    assert(b@.skip(0) =~= b@);
    while i < a.len() && i < b.len() && a[i] == b[i]
        invariant
            i <= a.len(),
            i <= b.len(),
            forall|j: int| 0 <= j < i ==> a@[j] == b@[j],
            key_lt(a@, b@) == key_lt(a@.skip(i as int), b@.skip(i as int)),
        decreases a.len() - i,
    {
        proof {
            assert(a@.skip(i as int).drop_first() =~= a@.skip(i + 1));
            assert(b@.skip(i as int).drop_first() =~= b@.skip(i + 1));
        }
        i = i + 1;
    }
    let ghost sa = a@.skip(i as int);
    let ghost sb = b@.skip(i as int);
    if i == a.len() {
        i < b.len()
    } else if i == b.len() {
        false
    } else {
        assert(sa[0] == a@[i as int]);
        assert(sb[0] == b@[i as int]);
        a[i] < b[i]
    }
}

pub proof fn lemma_find_sep(s: Seq<char>)
    ensures
        match find_sep(s) {
            Some(i) => 0 <= i < s.len() && is_sep(s[i]) && forall|j: int| 0 <= j < i ==> !is_sep(s[j]),
            None => forall|j: int| 0 <= j < s.len() ==> !is_sep(s[j]),
        },
    decreases s.len(),
{
    if s.len() > 0 && !is_sep(s[0]) {
        lemma_find_sep(s.drop_first());
        assert forall|j: int| 1 <= j < s.len() implies s[j] == s.drop_first()[j - 1] by {}
    }
}

pub proof fn lemma_find_sep_at(s: Seq<char>, i: int)
    requires
        0 <= i <= s.len(),
        i < s.len() ==> is_sep(s[i]),
        forall|j: int| 0 <= j < i ==> !is_sep(s[j]),
    ensures
        find_sep(s) == (if i < s.len() { Some(i) } else { None::<int> }),
{
    lemma_find_sep(s);
    match find_sep(s) {
        Some(k) => {
            if k < i {
            } else if k > i {
                assert(is_sep(s[i]));
            }
        },
        None => {},
    }
}

/// The non-empty `/`- or `\`-separated components of a path.
pub fn path_parts_exec(v: &[char]) -> (r: Vec<Vec<char>>)
    ensures
        r@.map_values(|p: Vec<char>| p@) == path_parts(v@),
{
    let mut out: Vec<Vec<char>> = Vec::new();
    let mut start: usize = 0;
    let mut i: usize = 0;
    assert(v@.skip(0) =~= v@);
    while i < v.len()
        invariant
            start <= i <= v.len(),
            forall|j: int| start <= j < i ==> !is_sep(#[trigger] v@[j]),
            out@.map_values(|p: Vec<char>| p@) + path_parts(v@.skip(start as int)) == path_parts(v@),
        decreases v.len() - i,
    {
        if v[i] == '/' || v[i] == '\\' {
            let piece = slice_vec(v, start, i);
            proof {
                let rest = v@.skip(start as int);
                lemma_find_sep_at(rest, i - start);
                assert(piece@ =~= rest.take(i - start));
                assert(rest.skip(i - start + 1) =~= v@.skip(i + 1));
            }
            if i > start {
                let ghost before = out@.map_values(|p: Vec<char>| p@);
                out.push(piece);
                assert(out@.map_values(|p: Vec<char>| p@) =~= before.push(piece@));
                assert(out@.map_values(|p: Vec<char>| p@) + path_parts(v@.skip(i + 1)) =~= before + (seq![piece@] + path_parts(v@.skip(i + 1))));
            } else {
                assert(out@.map_values(|p: Vec<char>| p@) + path_parts(v@.skip(i + 1)) =~= out@.map_values(|p: Vec<char>| p@) + (seq![] + path_parts(v@.skip(i + 1))));
            }
            start = i + 1;
        }
        i = i + 1;
    }
    let piece = slice_vec(v, start, v.len());
    proof {
        let rest = v@.skip(start as int);
        lemma_find_sep_at(rest, rest.len() as int);
        assert(piece@ =~= rest);
    }
    if piece.len() > 0 {
        let ghost before = out@.map_values(|p: Vec<char>| p@);
        out.push(piece);
        assert(out@.map_values(|p: Vec<char>| p@) =~= before.push(piece@));
        assert(before + seq![piece@] =~= before.push(piece@));
    } else {
        assert(out@.map_values(|p: Vec<char>| p@) + seq![] =~= out@.map_values(|p: Vec<char>| p@));
    }
    out
}

impl ArchiveTree {
    /// Build the tree from a listing. Intermediate directories are created from
    /// file paths; explicit directory entries are honoured too.
    /// The tree is well-formed: at every depth each key is its entry's name
    /// lowercased and no two keys of a level are equal, so spellings that
    /// differ only in ASCII case share one entry (the first spelling wins, see
    /// [`crate::picker::lemma_first_spelling_wins`]).
    pub fn from_entries(entries: &[ArchiveEntry]) -> (t: ArchiveTree)
        ensures
            t.model() == build(listing_model(entries@)),
            crate::picker::tree_wf(t.model()),
    {
        proof {
            crate::picker::lemma_from_entries_wf(listing_model(entries@));
        }
        let mut root = ArchiveTree::new();
        let mut i: usize = 0;
        while i < entries.len()
            invariant
                i <= entries@.len(),
                root.model() == build(listing_model(entries@.take(i as int))),
            decreases entries.len() - i,
        {
            let path = chars_of(entries[i].path.as_str());
            let parts = path_parts_exec(&path);
            proof {
                assert(parts@.map_values(|p: Vec<char>| p@).skip(0) =~= parts@.map_values(|p: Vec<char>| p@));
                let l = listing_model(entries@.take(i + 1));
                assert(l.drop_last() =~= listing_model(entries@.take(i as int)));
                assert(l.last() == (entries@[i as int].path@, entries@[i as int].is_dir));
            }
            root.insert(&parts, 0, entries[i].is_dir);
            i = i + 1;
        }
        assert(entries@.take(entries@.len() as int) =~= entries@);
        root
    }

    /// An empty tree.
    pub fn new() -> (t: ArchiveTree)
        ensures
            t.model() == Seq::<(Seq<char>, NodeM)>::empty(),
            crate::picker::tree_wf(t.model()),
    {
        ArchiveTree { entries: Vec::new() }
    }

    /// The index of the entry whose key is `key`.
    fn find_key(&self, key: &[char]) -> (r: Option<usize>)
        ensures
            match r {
                Some(i) => lookup(self.model(), key@) == Some(i as int),
                None => lookup(self.model(), key@) == None::<int>,
            },
    {
        proof {
            lemma_entries_model(self.entries@);
        }
        let mut i: usize = 0;
        while i < self.entries.len()
            invariant
                i <= self.entries@.len(),
                entries_model(self.entries@).len() == self.entries@.len(),
                forall|j: int| 0 <= j < self.entries@.len() ==> #[trigger] entries_model(self.entries@)[j] == (self.entries@[j].0@, self.entries@[j].1.model()),
                forall|j: int| 0 <= j < i ==> #[trigger] self.model()[j].0 != key@,
            decreases self.entries.len() - i,
        {
            let k = chars_of(self.entries[i].0.as_str());
            if eq_chars(&k, key) {
                proof {
                    lemma_lookup_at(self.model(), key@, i as int);
                }
                return Some(i);
            }
            i = i + 1;
        }
        proof {
            lemma_lookup_at(self.model(), key@, i as int);
        }
        None
    }

    /// Where a new `key` goes.
    fn insert_point(&self, key: &[char]) -> (r: usize)
        ensures
            r as int == insert_pos(self.model(), key@),
            r <= self.entries@.len(),
    {
        proof {
            lemma_entries_model(self.entries@);
        }
        let mut i: usize = 0;
        loop
            invariant
                i <= self.entries@.len(),
                entries_model(self.entries@).len() == self.entries@.len(),
                forall|j: int| 0 <= j < self.entries@.len() ==> #[trigger] entries_model(self.entries@)[j] == (self.entries@[j].0@, self.entries@[j].1.model()),
                forall|j: int| 0 <= j < i ==> key_lt(#[trigger] self.model()[j].0, key@),
            ensures
                i <= self.entries@.len(),
                i < self.entries@.len() ==> !key_lt(self.model()[i as int].0, key@),
                forall|j: int| 0 <= j < i ==> key_lt(#[trigger] self.model()[j].0, key@),
            decreases self.entries.len() - i,
        {
            if i == self.entries.len() {
                break;
            }
            let k = chars_of(self.entries[i].0.as_str());
            if !key_lt_exec(&k, key) {
                break;
            }
            i = i + 1;
        }
        proof {
            lemma_insert_pos_at(self.model(), key@, i as int);
        }
        i
    }

    /// Add `parts[start..]` as one path.
    fn insert(&mut self, parts: &Vec<Vec<char>>, start: usize, is_dir: bool)
        requires
            start <= parts@.len(),
        ensures
            final(self).model() == insert_path(
                old(self).model(),
                parts@.map_values(|p: Vec<char>| p@).skip(start as int),
                is_dir,
            ),
        decreases parts@.len() - start,
    {
        let ghost ps = parts@.map_values(|p: Vec<char>| p@).skip(start as int);
        let ghost t0 = self.model();
        if start == parts.len() {
            assert(ps.len() == 0);
            return;
        }
        assert(ps[0] == parts@[start as int]@);
        assert(ps.drop_first() =~= parts@.map_values(|p: Vec<char>| p@).skip(start + 1));
        let key = lower_vec(&parts[start]);
        proof {
            lemma_entries_model(self.entries@);
        }
        match self.find_key(&key) {
            Some(i) => {
                proof {
                    lemma_lookup(self.model(), key@);
                }
                if start + 1 == parts.len() {
                    return;
                }
                let (k, node) = self.entries.remove(i);
                let ghost rest = self.entries@;
                match node {
                    TreeNode::Dir { name, mut tree } => {
                        tree.insert(parts, start + 1, is_dir);
                        self.entries.insert(i, (k, TreeNode::Dir { name, tree }));
                        proof {
                            let m = t0.update(
                                i as int,
                                (t0[i as int].0, NodeM::Dir {
                                    name: name@,
                                    tree: tree.model(),
                                }),
                            );
                            assert forall|j: int| 0 <= j < self.entries@.len() implies
                                (self.entries@[j].0@, self.entries@[j].1.model()) == #[trigger] m[j] by {
                                if j < i {
                                    assert(self.entries@[j] == old(self).entries@[j]);
                                } else if j > i {
                                    assert(self.entries@[j] == old(self).entries@[j]);
                                }
                            }
                            lemma_entries_model_ext(self.entries@, m);
                        }
                    },
                    TreeNode::File { name } => {
                        self.entries.insert(i, (k, TreeNode::File { name }));
                        proof {
                            assert(self.entries@ =~= old(self).entries@);
                        }
                    },
                }
            },
            None => {
                let pos = self.insert_point(&key);
                let name = string_of(&parts[start]);
                let node = if start + 1 == parts.len() {
                    if is_dir {
                        TreeNode::Dir { name, tree: ArchiveTree::new() }
                    } else {
                        TreeNode::File { name }
                    }
                } else {
                    let mut sub = ArchiveTree::new();
                    sub.insert(parts, start + 1, is_dir);
                    TreeNode::Dir { name, tree: sub }
                };
                let ks = string_of(&key);
                self.entries.insert(pos, (ks, node));
                proof {
                    let m = t0.insert(pos as int, (lower(ps[0]), node.model()));
                    assert forall|j: int| 0 <= j < self.entries@.len() implies
                        (self.entries@[j].0@, self.entries@[j].1.model()) == #[trigger] m[j] by {
                        if j < pos {
                            assert(self.entries@[j] == old(self).entries@[j]);
                        } else if j > pos {
                            assert(self.entries@[j] == old(self).entries@[j - 1]);
                        }
                    }
                    lemma_entries_model_ext(self.entries@, m);
                }
            },
        }
    }
}


/// The verdict of a mod-root check on one archive level.
#[derive(Debug, Clone, Copy, PartialEq, Eq, Structural)]
pub enum CheckReturn {
    /// This level is a valid mod root.
    Valid,
    /// Not valid here, but a known fixup could make it so (reserved).
    Fixable,
    /// Not a mod root.
    Invalid,
}

/// What makes a directory level a valid mod root, for one game: the top-level
/// directory names and file extensions that mark it, matched ignoring ASCII
/// case, and the game's mod-merge root relative to its install directory.
#[derive(Debug, Clone)]
pub struct LayoutRules {
    /// Top-level directory names that mark this level as a mod root.
    pub folders: Vec<String>,
    /// File extensions, without the dot, that mark this level as a mod root.
    pub suffixes: Vec<String>,
    /// The mod-merge root relative to the install directory (`Data`,
    /// `SB/Content/Paks`); empty in the default rules.
    pub data_dir: String,
}

/// The Gamebryo data folder names.
pub open spec fn gamebryo_folders() -> Seq<Seq<char>> {
    seq![
        "fonts"@, "interface"@, "menus"@, "meshes"@, "music"@, "scripts"@, "shaders"@,
        "sound"@, "strings"@, "textures"@, "trees"@, "video"@, "facegen"@, "materials"@,
        "skse"@, "obse"@, "mwse"@, "nvse"@, "fose"@, "f4se"@, "distantlod"@, "asi"@,
        "skyproc patchers"@, "tools"@, "mcm"@, "icons"@, "bookart"@, "distantland"@,
        "mits"@, "splash"@, "dllplugins"@, "calientetools"@, "netscriptframework"@,
        "shadersfx"@,
    ]
}

/// The Gamebryo data file extensions.
pub open spec fn gamebryo_suffixes() -> Seq<Seq<char>> {
    seq!["esp"@, "esm"@, "esl"@, "bsa"@, "ba2"@, "modgroups"@, "ini"@]
}

/// The views of a list of strings.
pub open spec fn views(v: Seq<String>) -> Seq<Seq<char>> {
    v.map_values(|s: String| s@)
}

/// Whether some member of `list` equals `name` ignoring ASCII case.
pub open spec fn has_ic(list: Seq<Seq<char>>, name: Seq<char>) -> bool {
    exists|i: int| 0 <= i < list.len() && eq_ic(#[trigger] list[i], name)
}

/// Owned strings from literals.
fn owned_all(v: &[&str]) -> (r: Vec<String>)
    ensures
        r@.len() == v@.len(),
        forall|i: int| 0 <= i < v@.len() ==> (#[trigger] r@[i])@ == v@[i]@,
{
    let mut out: Vec<String> = Vec::new();
    for i in 0..v.len()
        invariant
            out@.len() == i,
            forall|j: int| 0 <= j < i ==> (#[trigger] out@[j])@ == v@[j]@,
    {
        out.push(v[i].to_owned());
    }
    out
}

impl Default for LayoutRules {
    /// The Gamebryo vocabulary, with no data directory.
    fn default() -> (r: LayoutRules)
        ensures
            views(r.folders@) == gamebryo_folders(),
            views(r.suffixes@) == gamebryo_suffixes(),
            r.data_dir@ == Seq::<char>::empty(),
    {
        let folders = owned_all(&[
            "fonts", "interface", "menus", "meshes", "music", "scripts", "shaders", "sound",
            "strings", "textures", "trees", "video", "facegen", "materials", "skse", "obse",
            "mwse", "nvse", "fose", "f4se", "distantlod", "asi", "skyproc patchers", "tools",
            "mcm", "icons", "bookart", "distantland", "mits", "splash", "dllplugins",
            "calientetools", "netscriptframework", "shadersfx",
        ]);
        let suffixes = owned_all(&["esp", "esm", "esl", "bsa", "ba2", "modgroups", "ini"]);
        let r = LayoutRules { folders, suffixes, data_dir: String::new() };
        assert(views(r.folders@) =~= gamebryo_folders());
        assert(views(r.suffixes@) =~= gamebryo_suffixes());
        r
    }
}

impl LayoutRules {
    /// Whether `name` is one of the data folders.
    pub open spec fn folder_match(&self, name: Seq<char>) -> bool {
        has_ic(views(self.folders@), name)
    }

    /// Whether `ext` is one of the data extensions.
    pub open spec fn suffix_match(&self, ext: Seq<char>) -> bool {
        has_ic(views(self.suffixes@), ext)
    }

    /// Whether `name` is one of this game's data folders.
    pub fn folder_matches(&self, name: &str) -> (r: bool)
        ensures
            r == self.folder_match(name@),
    {
        list_has_ic(&self.folders, name)
    }

    /// Whether `ext` (no dot) is one of this game's data file extensions.
    pub fn suffix_matches(&self, ext: &str) -> (r: bool)
        ensures
            r == self.suffix_match(ext@),
    {
        list_has_ic(&self.suffixes, ext)
    }
}

/// Whether some member of `list` equals `name` ignoring ASCII case.
fn list_has_ic(list: &[String], name: &str) -> (r: bool)
    ensures
        r == has_ic(views(list@), name@),
{
    let mut i: usize = 0;
    while i < list.len()
        invariant
            i <= list@.len(),
            forall|j: int| 0 <= j < i ==> !eq_ic(#[trigger] views(list@)[j], name@),
        decreases list.len() - i,
    {
        if eq_ic_str(list[i].as_str(), name) {
            assert(views(list@)[i as int] == list@[i as int]@);
            return true;
        }
        i = i + 1;
    }
    false
}

/// Whether a `(key, node)` entry marks its level as a mod root.
pub open spec fn entry_marks(e: (Seq<char>, NodeM), r: &LayoutRules) -> bool {
    match e.1 {
        NodeM::Dir { .. } => r.folder_match(e.0),
        NodeM::File { .. } => match rsplit_once(e.0, '.') {
            Some((_, ext)) => r.suffix_match(ext),
            None => false,
        },
    }
}

/// A level is a valid mod root when one of its entries marks it.
pub open spec fn data_valid(t: TreeM, r: &LayoutRules) -> bool {
    exists|i: int| 0 <= i < t.len() && #[trigger] entry_marks(t[i], r)
}

/// The entry `(key, node)` of the tree at `i` in model form.
fn entry_marks_exec(key: &String, node: &TreeNode, r: &LayoutRules) -> (b: bool)
    ensures
        b == entry_marks((key@, node.model()), r),
{
    match node {
        TreeNode::Dir { .. } => r.folder_matches(key.as_str()),
        TreeNode::File { .. } => {
            let k = chars_of(key.as_str());
            match rsplit_once_vec(&k, '.') {
                Some((_, ext)) => {
                    let e = string_of(&ext);
                    r.suffix_matches(e.as_str())
                },
                None => false,
            }
        },
    }
}

impl ArchiveTree {
    /// Number of top-level entries.
    pub fn len(&self) -> (n: usize)
        ensures
            n == self.model().len(),
    {
        proof {
            lemma_entries_model(self.entries@);
        }
        self.entries.len()
    }

    /// Whether the tree has no entries.
    pub fn is_empty(&self) -> (b: bool)
        ensures
            b == (self.model().len() == 0),
    {
        proof {
            lemma_entries_model(self.entries@);
        }
        self.entries.len() == 0
    }

    /// A level is a valid mod root if a top-level entry is one of the game's
    /// data folders, or a file carrying one of its data extensions.
    pub fn data_looks_valid(&self, rules: LayoutRules) -> (c: CheckReturn)
        ensures
            c == (if data_valid(self.model(), &rules) { CheckReturn::Valid } else { CheckReturn::Invalid }),
    {
        if self.valid_at_level(&rules) {
            CheckReturn::Valid
        } else {
            CheckReturn::Invalid
        }
    }

    fn valid_at_level(&self, rules: &LayoutRules) -> (b: bool)
        ensures
            b == data_valid(self.model(), rules),
    {
        proof {
            lemma_entries_model(self.entries@);
        }
        let mut i: usize = 0;
        while i < self.entries.len()
            invariant
                i <= self.entries@.len(),
                self.model().len() == self.entries@.len(),
                forall|j: int| 0 <= j < self.entries@.len() ==> #[trigger] self.model()[j] == (self.entries@[j].0@, self.entries@[j].1.model()),
                forall|j: int| 0 <= j < i ==> !#[trigger] entry_marks(self.model()[j], rules),
            decreases self.entries.len() - i,
        {
            if entry_marks_exec(&self.entries[i].0, &self.entries[i].1, rules) {
                assert(entry_marks(self.model()[i as int], rules));
                return true;
            }
            i = i + 1;
        }
        false
    }
}


/// The name a node carries in its original casing.
pub open spec fn node_name(n: NodeM) -> Seq<char> {
    match n {
        NodeM::File { name } => name,
        NodeM::Dir { name, .. } => name,
    }
}

/// The documentation file extensions allowed beside a `Data` directory.
pub open spec fn doc_exts() -> Seq<Seq<char>> {
    seq!["txt"@, "pdf"@, "md"@, "jpg"@, "jpeg"@, "png"@, "bmp"@]
}

/// The executable image extensions.
pub open spec fn image_exts() -> Seq<Seq<char>> {
    seq!["dll"@, "exe"@, "asi"@]
}

/// The lowercased extension after the last `.` of a name, empty without one.
pub open spec fn ext_of(name: Seq<char>) -> Seq<char> {
    match rsplit_once(name, '.') {
        Some((_, e)) => lower(e),
        None => Seq::empty(),
    }
}

/// A documentation file name.
pub open spec fn is_doc(name: Seq<char>) -> bool {
    doc_exts().contains(ext_of(name))
}

/// An executable image file name.
pub open spec fn is_image(name: Seq<char>) -> bool {
    image_exts().contains(ext_of(name))
}

/// The data-text shape with its `Data` directory at `k`: exactly one
/// directory, named `Data` in any case, and every other entry a documentation
/// file.
pub open spec fn data_text_at(t: TreeM, k: int) -> bool {
    &&& 0 <= k < t.len()
    &&& t[k].1 is Dir
    &&& eq_ic(node_name(t[k].1), "data"@)
    &&& forall|j: int| 0 <= j < t.len() && j != k ==> (#[trigger] t[j]).1 is File && is_doc(node_name(t[j].1))
}

/// The single wrapper directory this level consists of.
pub open spec fn single_subdir(t: TreeM) -> bool {
    t.len() == 1 && t[0].1 is Dir
}

/// The `/`-joined prefix to strip for the mod root: empty when this level is a
/// valid root, else through a sole wrapper directory or a `Data` directory
/// beside documentation; `None` when it never resolves.
pub open spec fn simple_base(t: TreeM, r: &LayoutRules) -> Option<Seq<char>>
    decreases t,
{
    if data_valid(t, r) {
        Some(Seq::empty())
    } else if single_subdir(t) {
        match t[0].1 {
            NodeM::Dir { name, tree } => match simple_base(tree, r) {
                Some(p) => Some(name + seq!['/'] + p),
                None => None,
            },
            NodeM::File { .. } => None,
        }
    } else if exists|k: int| data_text_at(t, k) {
        let k = choose|k: int| data_text_at(t, k);
        match t[k].1 {
            NodeM::Dir { name, tree } => match simple_base(tree, r) {
                Some(p) => Some(name + seq!['/'] + p),
                None => None,
            },
            NodeM::File { .. } => None,
        }
    } else {
        None
    }
}

/// Whether `list` holds `s`.
fn list_has(list: &[&str], s: &[char]) -> (b: bool)
    ensures
        b == list@.map_values(|x: &str| x@).contains(s@),
{
    let ghost m = list@.map_values(|x: &str| x@);
    let mut i: usize = 0;
    while i < list.len()
        invariant
            i <= list@.len(),
            m == list@.map_values(|x: &str| x@),
            forall|j: int| 0 <= j < i ==> m[j] != s@,
        decreases list.len() - i,
    {
        let c = chars_of(list[i]);
        if eq_chars(&c, s) {
            assert(m[i as int] == s@);
            return true;
        }
        i = i + 1;
    }
    false
}

/// The lowercased extension after the last `.`.
fn ext_exec(name: &str) -> (e: Vec<char>)
    ensures
        e@ == ext_of(name@),
{
    let v = chars_of(name);
    match rsplit_once_vec(&v, '.') {
        Some((_, e)) => lower_vec(&e),
        None => Vec::new(),
    }
}

/// The lowercased extension of a name, for other modules.
pub fn ext_exec_pub(name: &str) -> (e: Vec<char>)
    ensures
        e@ == ext_of(name@),
{
    ext_exec(name)
}

fn is_doc_exec(name: &str) -> (b: bool)
    ensures
        b == is_doc(name@),
{
    let e = ext_exec(name);
    let b = list_has(&["txt", "pdf", "md", "jpg", "jpeg", "png", "bmp"], &e);
    assert(["txt", "pdf", "md", "jpg", "jpeg", "png", "bmp"]@.map_values(|x: &str| x@) =~= doc_exts());
    b
}

fn is_image_exec(name: &str) -> (b: bool)
    ensures
        b == is_image(name@),
{
    let e = ext_exec(name);
    let b = list_has(&["dll", "exe", "asi"], &e);
    assert(["dll", "exe", "asi"]@.map_values(|x: &str| x@) =~= image_exts());
    b
}


/// The data-text `Data` directory is unique when it exists.
pub proof fn lemma_data_text_unique(t: TreeM, a: int, b: int)
    requires
        data_text_at(t, a),
        data_text_at(t, b),
    ensures
        a == b,
{
    if a != b {
        assert(t[b].1 is File);
    }
}

/// `name/rest` as characters.
fn join_slash(name: &String, rest: Vec<char>) -> (r: Vec<char>)
    ensures
        r@ == name@ + seq!['/'] + rest@,
{
    let mut v = chars_of(name.as_str());
    v.push('/');
    let mut rest = rest;
    v.append(&mut rest);
    v
}

impl ArchiveTree {
    /// The index of the `Data` directory when this level has the data-text
    /// shape.
    fn data_text_index(&self) -> (r: Option<usize>)
        ensures
            match r {
                Some(k) => data_text_at(self.model(), k as int),
                None => !exists|k: int| data_text_at(self.model(), k),
            },
    {
        proof {
            lemma_entries_model(self.entries@);
        }
        let ghost t = self.model();
        let mut data: Option<usize> = None;
        let mut i: usize = 0;
        while i < self.entries.len()
            invariant
                i <= self.entries@.len(),
                t == self.model(),
                t.len() == self.entries@.len(),
                forall|j: int| 0 <= j < self.entries@.len() ==> #[trigger] t[j] == (self.entries@[j].0@, self.entries@[j].1.model()),
                match data {
                    Some(k) => {
                        &&& k < i
                        &&& t[k as int].1 is Dir
                        &&& eq_ic(node_name(t[k as int].1), "data"@)
                        &&& forall|j: int| 0 <= j < i && j != k ==> (#[trigger] t[j]).1 is File && is_doc(node_name(t[j].1))
                    },
                    None => forall|j: int| 0 <= j < i ==> (#[trigger] t[j]).1 is File && is_doc(node_name(t[j].1)),
                },
            decreases self.entries.len() - i,
        {
            match &self.entries[i].1 {
                TreeNode::Dir { name, .. } => {
                    assert(t[i as int].1 is Dir);
                    if eq_ic_str(name.as_str(), "data") {
                        if data.is_some() {
                            proof {
                                let k = data.unwrap();
                                assert forall|c: int| !data_text_at(t, c) by {
                                    if data_text_at(t, c) {
                                        if c == i {
                                            assert(t[k as int].1 is File);
                                        } else {
                                            assert(t[i as int].1 is File);
                                        }
                                    }
                                }
                            }
                            return None;
                        }
                        data = Some(i);
                    } else {
                        proof {
                            assert forall|c: int| !data_text_at(t, c) by {
                                if data_text_at(t, c) {
                                    if c != i {
                                        assert(t[i as int].1 is File);
                                    }
                                }
                            }
                        }
                        return None;
                    }
                },
                TreeNode::File { name } => {
                    if !is_doc_exec(name.as_str()) {
                        proof {
                            assert forall|c: int| !data_text_at(t, c) by {
                                if data_text_at(t, c) {
                                    if c != i {
                                        assert(is_doc(node_name(t[i as int].1)));
                                    }
                                }
                            }
                        }
                        return None;
                    }
                },
            }
            i = i + 1;
        }
        proof {
            if data.is_none() {
                assert forall|c: int| !data_text_at(t, c) by {
                    if data_text_at(t, c) {
                        assert(t[c].1 is File);
                    }
                }
            }
        }
        data
    }

    /// The prefix to strip below this level, as characters.
    fn base_of(&self, rules: &LayoutRules) -> (p: Option<Vec<char>>)
        ensures
            match p {
                Some(v) => simple_base(self.model(), rules) == Some(v@),
                None => simple_base(self.model(), rules) is None,
            },
        decreases self,
    {
        if self.valid_at_level(rules) {
            return Some(Vec::new());
        }
        proof {
            lemma_entries_model(self.entries@);
        }
        let ghost t = self.model();
        if self.entries.len() == 1 {
            assert(t[0] == (self.entries@[0].0@, self.entries@[0].1.model()));
            match &self.entries[0].1 {
                TreeNode::Dir { name, tree } => {
                    assert(single_subdir(t));
                    return match tree.base_of(rules) {
                        Some(rest) => Some(join_slash(name, rest)),
                        None => None,
                    };
                },
                TreeNode::File { .. } => {},
            }
        }
        match self.data_text_index() {
            Some(k) => {
                proof {
                    let c = choose|c: int| data_text_at(t, c);
                    lemma_data_text_unique(t, c, k as int);
                    assert(t[k as int] == (self.entries@[k as int].0@, self.entries@[k as int].1.model()));
                }
                match &self.entries[k].1 {
                    TreeNode::Dir { name, tree } => match tree.base_of(rules) {
                        Some(rest) => Some(join_slash(name, rest)),
                        None => None,
                    },
                    TreeNode::File { .. } => None,
                }
            },
            None => None,
        }
    }

    /// Descend while there is exactly one wrapper subdirectory (or a `Data`
    /// directory beside documentation) until the level looks like a valid mod
    /// root. Returns the `/`-joined prefix to strip on extraction, empty if
    /// already valid, or `None` if it never resolves to a mod root.
    /// On a well-formed tree (every tree built by [`ArchiveTree::from_entries`])
    /// a found prefix names a level that is a valid mod root, is empty exactly
    /// when the top level already is one, and otherwise ends with `/`; no
    /// prefix is found only where the top level is not valid.
    pub fn simple_archive_base(&self, rules: LayoutRules) -> (p: Option<String>)
        ensures
            match p {
                Some(s) => simple_base(self.model(), &rules) == Some(s@),
                None => simple_base(self.model(), &rules) is None,
            },
            crate::picker::tree_wf(self.model()) ==> match p {
                Some(s) => root_valid(self.model(), s@, &rules) && (s@.len() == 0 <==> data_valid(self.model(), &rules))
                    && (s@.len() == 0 || s@.last() == '/'),
                None => !data_valid(self.model(), &rules),
            },
    {
        proof {
            if crate::picker::tree_wf(self.model()) {
                crate::picker::lemma_simple_base_resolves(self.model(), &rules);
            }
        }
        match self.base_of(&rules) {
            Some(v) => Some(string_of(&v)),
            None => None,
        }
    }
}


/// The subtree reached by following `parts`, each matched through its
/// lowercased key; `None` when a part is missing or names a file.
pub open spec fn descend(t: TreeM, parts: Seq<Seq<char>>) -> Option<TreeM>
    decreases parts.len(),
{
    if parts.len() == 0 {
        Some(t)
    } else {
        match lookup(t, lower(parts[0])) {
            Some(i) => match t[i].1 {
                NodeM::Dir { tree, .. } => descend(tree, parts.drop_first()),
                NodeM::File { .. } => None,
            },
            None => None,
        }
    }
}

/// Whether the level at `path` resolves and is a valid mod root.
pub open spec fn root_valid(t: TreeM, path: Seq<char>, r: &LayoutRules) -> bool {
    match descend(t, path_parts(path)) {
        Some(sub) => data_valid(sub, r),
        None => false,
    }
}

/// Top-level folder keys that are never BAIN sub-packages.
pub open spec fn bain_ignored() -> Seq<Seq<char>> {
    seq!["fomod"@, "omod conversion data"@, "images"@, "screenshots"@, "docs"@]
}

/// A top-level entry that can be a BAIN sub-package: a directory that is
/// neither ignored nor disabled with a `--` prefix.
pub open spec fn bain_candidate(e: (Seq<char>, NodeM)) -> bool {
    &&& e.1 is Dir
    &&& !bain_ignored().contains(e.0)
    &&& !(e.0.len() >= 2 && e.0[0] == '-' && e.0[1] == '-')
}

/// The candidates whose own contents are a valid mod root, by name, in order.
pub open spec fn bain_valid(t: TreeM, r: &LayoutRules) -> Seq<Seq<char>>
    decreases t.len(),
{
    if t.len() == 0 {
        Seq::empty()
    } else {
        let e = t.last();
        let prev = bain_valid(t.drop_last(), r);
        if bain_candidate(e) && data_valid(e.1->tree, r) {
            prev.push(node_name(e.1))
        } else {
            prev
        }
    }
}

/// How many candidates are not valid mod roots.
pub open spec fn bain_invalid(t: TreeM, r: &LayoutRules) -> nat
    decreases t.len(),
{
    if t.len() == 0 {
        0
    } else {
        let e = t.last();
        let prev = bain_invalid(t.drop_last(), r);
        if bain_candidate(e) && !data_valid(e.1->tree, r) {
            prev + 1
        } else {
            prev
        }
    }
}

/// Whether a `fomod` directory stands at this level or below.
pub open spec fn has_fomod(t: TreeM) -> bool
    decreases t, 1int,
{
    (match lookup(t, "fomod"@) {
        Some(i) => 0 <= i < t.len() && t[i].1 is Dir,
        None => false,
    }) || sub_has_fomod(t)
}

/// Whether one of this level's directories holds a `fomod` directory.
pub open spec fn sub_has_fomod(t: TreeM) -> bool
    decreases t, 0int,
{
    if t.len() == 0 {
        false
    } else {
        let e = t[t.len() - 1];
        sub_has_fomod(t.drop_last()) || match e.1 {
            NodeM::Dir { tree, .. } => has_fomod(tree),
            NodeM::File { .. } => false,
        }
    }
}

impl ArchiveTree {
    /// The subtree at a `/`-joined path, each component matched ignoring ASCII
    /// case (`""` is this tree); `None` if the path does not exist or names a
    /// file.
    pub fn subtree(&self, path: &str) -> (r: Option<&ArchiveTree>)
        ensures
            match r {
                Some(t) => descend(self.model(), path_parts(path@)) == Some(t.model()),
                None => descend(self.model(), path_parts(path@)) is None,
            },
    {
        let v = chars_of(path);
        let parts = path_parts_exec(&v);
        let ghost ps = parts@.map_values(|p: Vec<char>| p@);
        let mut cur: &ArchiveTree = self;
        let mut k: usize = 0;
        assert(ps.skip(0) =~= ps);
        while k < parts.len()
            invariant
                k <= parts@.len(),
                ps == parts@.map_values(|p: Vec<char>| p@),
                ps == path_parts(v@),
                v@ == path@,
                descend(self.model(), ps) == descend(cur.model(), ps.skip(k as int)),
            decreases parts.len() - k,
        {
            let key = lower_vec(&parts[k]);
            let ghost rest = ps.skip(k as int);
            assert(rest[0] == parts@[k as int]@);
            assert(rest.drop_first() =~= ps.skip(k + 1));
            proof {
                lemma_entries_model(cur.entries@);
            }
            match cur.find_key(&key) {
                Some(i) => {
                    proof {
                        lemma_lookup(cur.model(), key@);
                    }
                    assert(cur.model()[i as int] == (cur.entries@[i as int].0@, cur.entries@[i as int].1.model()));
                    match &cur.entries[i].1 {
                        TreeNode::Dir { tree, .. } => {
                            cur = tree;
                        },
                        TreeNode::File { .. } => {
                            return None;
                        },
                    }
                },
                None => {
                    return None;
                },
            }
            k = k + 1;
        }
        assert(ps.skip(k as int).len() == 0);
        Some(cur)
    }

    /// Whether the level at `path` looks like a valid mod root; a path that
    /// does not resolve is not valid.
    pub fn root_looks_valid(&self, path: &str, rules: LayoutRules) -> (b: bool)
        ensures
            b == root_valid(self.model(), path@, &rules),
    {
        match self.subtree(path) {
            Some(t) => t.valid_at_level(&rules),
            None => false,
        }
    }

    /// The top-level directories that each on their own look like a mod root
    /// (in key order, original casing), and how many candidate directories did
    /// not. Files, the ignored packaging folders and `--`-disabled folders are
    /// not candidates.
    pub fn bain_subpackages(&self, rules: LayoutRules) -> (r: (Vec<String>, usize))
        ensures
            views(r.0@) == bain_valid(self.model(), &rules),
            r.1 as nat == bain_invalid(self.model(), &rules),
    {
        proof {
            lemma_entries_model(self.entries@);
        }
        let ghost t = self.model();
        let mut valid: Vec<String> = Vec::new();
        let mut invalid: usize = 0;
        let mut i: usize = 0;
        while i < self.entries.len()
            invariant
                i <= self.entries@.len(),
                t == self.model(),
                t.len() == self.entries@.len(),
                forall|j: int| 0 <= j < self.entries@.len() ==> #[trigger] t[j] == (self.entries@[j].0@, self.entries@[j].1.model()),
                views(valid@) == bain_valid(t.take(i as int), &rules),
                invalid as nat == bain_invalid(t.take(i as int), &rules),
                invalid <= i,
            decreases self.entries.len() - i,
        {
            let ghost ti = t.take(i + 1);
            assert(ti.drop_last() =~= t.take(i as int));
            assert(ti.last() == t[i as int]);
            let key = &self.entries[i].0;
            match &self.entries[i].1 {
                TreeNode::Dir { name, tree } => {
                    let k = chars_of(key.as_str());
                    let ignored = list_has(&["fomod", "omod conversion data", "images", "screenshots", "docs"], &k);
                    assert(["fomod", "omod conversion data", "images", "screenshots", "docs"]@.map_values(|x: &str| x@) =~= bain_ignored());
                    let disabled = k.len() >= 2 && k[0] == '-' && k[1] == '-';
                    if !ignored && !disabled {
                        if tree.valid_at_level(&rules) {
                            let ghost before = valid@;
                            valid.push(name.clone());
                            assert(views(valid@) =~= views(before).push(name@));
                        } else {
                            invalid = invalid + 1;
                        }
                    }
                },
                TreeNode::File { .. } => {},
            }
            i = i + 1;
        }
        assert(t.take(i as int) =~= t);
        (valid, invalid)
    }

    /// Whether the archive holds a `fomod` directory anywhere (a scripted
    /// installer); a plain file of that name does not count.
    pub fn has_fomod(&self) -> (b: bool)
        ensures
            b == has_fomod(self.model()),
        decreases self,
    {
        proof {
            lemma_entries_model(self.entries@);
        }
        let key = chars_of("fomod");
        match self.find_key(&key) {
            Some(k) => {
                proof {
                    lemma_lookup(self.model(), key@);
                }
                match &self.entries[k].1 {
                    TreeNode::Dir { .. } => {
                        return true;
                    },
                    TreeNode::File { .. } => {},
                }
            },
            None => {},
        }
        let ghost t = self.model();
        let mut i: usize = 0;
        while i < self.entries.len()
            invariant
                i <= self.entries@.len(),
                t == self.model(),
                t.len() == self.entries@.len(),
                forall|j: int| 0 <= j < self.entries@.len() ==> #[trigger] t[j] == (self.entries@[j].0@, self.entries@[j].1.model()),
                !sub_has_fomod(t.take(i as int)),
            decreases self.entries.len() - i,
        {
            let ghost ti = t.take(i + 1);
            assert(ti.drop_last() =~= t.take(i as int));
            assert(ti[ti.len() - 1] == t[i as int]);
            match &self.entries[i].1 {
                TreeNode::Dir { tree, .. } => {
                    if tree.has_fomod() {
                        proof {
                            lemma_sub_has_fomod_mono(t, i as int + 1);
                        }
                        return true;
                    }
                },
                TreeNode::File { .. } => {},
            }
            i = i + 1;
        }
        assert(t.take(i as int) =~= t);
        false
    }
}

/// A `fomod` below a prefix of the entries is below the whole level.
pub proof fn lemma_sub_has_fomod_mono(t: TreeM, n: int)
    requires
        0 <= n <= t.len(),
        sub_has_fomod(t.take(n)),
    ensures
        sub_has_fomod(t),
    decreases t.len() - n,
{
    if n < t.len() {
        assert(t.take(n + 1).drop_last() =~= t.take(n));
        lemma_sub_has_fomod_mono(t, n + 1);
    } else {
        assert(t.take(n) =~= t);
    }
}


/// One row of a flattened tree, for a picker UI.
#[derive(Debug, Clone, PartialEq, Eq)]
pub struct TreeRow {
    /// Nesting level, 0 for a top-level entry.
    pub depth: usize,
    /// The entry's own name, in its original archive casing.
    pub name: String,
    /// The `/`-joined path from the archive root.
    pub path: String,
    pub is_dir: bool,
}

/// A row as `(depth, name, path, is_dir)`.
pub type RowM = (nat, Seq<char>, Seq<char>, bool);

impl TreeRow {
    pub open spec fn model(&self) -> RowM {
        (self.depth as nat, self.name@, self.path@, self.is_dir)
    }
}

/// The models of a list of rows.
pub open spec fn rows_model(v: Seq<TreeRow>) -> Seq<RowM> {
    v.map_values(|r: TreeRow| r.model())
}

/// How deep flattening descends.
pub const MAX_TREE_DEPTH: usize = 64;

/// The path of a child named `name` below `prefix`.
pub open spec fn child_path(prefix: Seq<char>, name: Seq<char>) -> Seq<char> {
    if prefix.len() == 0 {
        name
    } else {
        prefix + seq!['/'] + name
    }
}

/// Depth-first rows of a level at `depth` below `prefix`; nothing at or past
/// the depth cap.
pub open spec fn flat(t: TreeM, prefix: Seq<char>, depth: nat) -> Seq<RowM>
    decreases t, 1int,
{
    if depth >= MAX_TREE_DEPTH {
        Seq::empty()
    } else {
        flat_entries(t, prefix, depth)
    }
}

/// The rows of the entries of one level, each followed by its subtree's rows.
pub open spec fn flat_entries(t: TreeM, prefix: Seq<char>, depth: nat) -> Seq<RowM>
    decreases t, 0int,
{
    if t.len() == 0 {
        Seq::empty()
    } else {
        let e = t[t.len() - 1];
        let name = node_name(e.1);
        let path = child_path(prefix, name);
        flat_entries(t.drop_last(), prefix, depth) + seq![(depth, name, path, e.1 is Dir)] + match e.1 {
            NodeM::Dir { tree, .. } => flat(tree, path, depth + 1),
            NodeM::File { .. } => Seq::empty(),
        }
    }
}

impl ArchiveTree {
    /// Flatten the tree to display rows, depth-first in key order. Rows below
    /// the depth cap are not listed.
    pub fn flatten(&self) -> (rows: Vec<TreeRow>)
        ensures
            rows_model(rows@) == flat(self.model(), Seq::empty(), 0),
    {
        let mut out: Vec<TreeRow> = Vec::new();
        let prefix = String::new();
        self.walk(&prefix, 0, &mut out);
        assert(rows_model(out@) =~= Seq::<RowM>::empty() + flat(self.model(), Seq::empty(), 0));
        out
    }

    fn walk(&self, prefix: &String, depth: usize, out: &mut Vec<TreeRow>)
        requires
            depth <= MAX_TREE_DEPTH,
        ensures
            rows_model(final(out)@) == rows_model(old(out)@) + flat(self.model(), prefix@, depth as nat),
        decreases self,
    {
        if depth >= MAX_TREE_DEPTH {
            assert(rows_model(out@) =~= rows_model(out@) + Seq::<RowM>::empty());
            return;
        }
        proof {
            lemma_entries_model(self.entries@);
        }
        let ghost t = self.model();
        let ghost start = rows_model(out@);
        let mut i: usize = 0;
        while i < self.entries.len()
            invariant
                i <= self.entries@.len(),
                depth < MAX_TREE_DEPTH,
                t == self.model(),
                t.len() == self.entries@.len(),
                forall|j: int| 0 <= j < self.entries@.len() ==> #[trigger] t[j] == (self.entries@[j].0@, self.entries@[j].1.model()),
                rows_model(out@) == start + flat_entries(t.take(i as int), prefix@, depth as nat),
            decreases self.entries.len() - i,
        {
            let ghost ti = t.take(i + 1);
            assert(ti.drop_last() =~= t.take(i as int));
            assert(ti[ti.len() - 1] == t[i as int]);
            let node = &self.entries[i].1;
            let name = match node {
                TreeNode::Dir { name, .. } => name,
                TreeNode::File { name } => name,
            };
            let path = if prefix.as_str().is_empty() {
                name.clone()
            } else {
                let mut p = prefix.clone();
                push_char(&mut p, '/');
                push_str(&mut p, name.as_str());
                p
            };
            assert(path@ == child_path(prefix@, node_name(t[i as int].1)));
            let ghost before = rows_model(out@);
            let is_dir = match node {
                TreeNode::Dir { .. } => true,
                TreeNode::File { .. } => false,
            };
            out.push(TreeRow { depth, name: name.clone(), path: path.clone(), is_dir });
            assert(rows_model(out@) =~= before.push((depth as nat, name@, path@, is_dir)));
            match node {
                TreeNode::Dir { tree, .. } => {
                    tree.walk(&path, depth + 1, out);
                },
                TreeNode::File { .. } => {},
            }
            assert(rows_model(out@) =~= start + flat_entries(ti, prefix@, depth as nat));
            i = i + 1;
        }
        assert(t.take(i as int) =~= t);
    }
}


/// `s` without leading `c`s.
pub open spec fn strip_lead(s: Seq<char>, c: char) -> Seq<char>
    decreases s.len(),
{
    if s.len() > 0 && s[0] == c {
        strip_lead(s.drop_first(), c)
    } else {
        s
    }
}

/// `s` without trailing `c`s.
pub open spec fn strip_trail(s: Seq<char>, c: char) -> Seq<char>
    decreases s.len(),
{
    if s.len() > 0 && s.last() == c {
        strip_trail(s.drop_last(), c)
    } else {
        s
    }
}

/// `str::trim_matches('/')`.
pub open spec fn trim_slashes(s: Seq<char>) -> Seq<char> {
    strip_trail(strip_lead(s, '/'), '/')
}

fn strip_lead_exec(v: &[char], c: char) -> (r: Vec<char>)
    ensures
        r@ == strip_lead(v@, c),
{
    let mut i: usize = 0;
    assert(v@.skip(0) =~= v@);
    while i < v.len() && v[i] == c
        invariant
            i <= v.len(),
            strip_lead(v@, c) == strip_lead(v@.skip(i as int), c),
        decreases v.len() - i,
    {
        assert(v@.skip(i as int).drop_first() =~= v@.skip(i + 1));
        i = i + 1;
    }
    let n = v.len();
    let r = slice_vec(v, i, n);
    assert(r@ =~= v@.skip(i as int));
    r
}

fn strip_trail_exec(v: &[char], c: char) -> (r: Vec<char>)
    ensures
        r@ == strip_trail(v@, c),
{
    let mut j: usize = v.len();
    assert(v@.take(j as int) =~= v@);
    while j > 0 && v[j - 1] == c
        invariant
            j <= v.len(),
            strip_trail(v@, c) == strip_trail(v@.take(j as int), c),
        decreases j,
    {
        assert(v@.take(j as int).drop_last() =~= v@.take(j - 1));
        j = j - 1;
    }
    let r = slice_vec(v, 0, j);
    assert(r@ =~= v@.take(j as int));
    r
}

fn trim_slashes_exec(v: &[char]) -> (r: Vec<char>)
    ensures
        r@ == trim_slashes(v@),
{
    let a = strip_lead_exec(v, '/');
    strip_trail_exec(&a, '/')
}

/// The game's own directory inside its install when the data directory sits
/// below it: the first component of the trimmed data directory, provided more
/// follows it; empty otherwise.
pub open spec fn game_dir_of(data_dir: Seq<char>) -> Seq<char> {
    match split_once(trim_slashes(data_dir), '/') {
        Some((first, rest)) => if first.len() > 0 && trim_slashes(rest).len() > 0 {
            first
        } else {
            Seq::empty()
        },
        None => Seq::empty(),
    }
}

impl LayoutRules {
    /// The game's own directory inside its install, when the mod-merge root
    /// sits below it (`SB` for `SB/Content/Paks`); empty when the mod root is a
    /// direct child of the install root.
    pub fn game_dir(&self) -> (g: String)
        ensures
            g@ == game_dir_of(self.data_dir@),
    {
        let d = chars_of(self.data_dir.as_str());
        let t = trim_slashes_exec(&d);
        match split_once_vec(&t, '/') {
            Some((first, rest)) => {
                let rt = trim_slashes_exec(&rest);
                if first.len() > 0 && rt.len() > 0 {
                    string_of(&first)
                } else {
                    String::new()
                }
            },
            None => String::new(),
        }
    }
}

/// The names of a level's entries other than `part` (ignoring case), each
/// below `prefix`.
pub open spec fn others(t: TreeM, part: Seq<char>, prefix: Seq<char>) -> Seq<Seq<char>>
    decreases t.len(),
{
    if t.len() == 0 {
        Seq::empty()
    } else {
        let prev = others(t.drop_last(), part, prefix);
        let n = node_name(t.last().1);
        if eq_ic(n, part) {
            prev
        } else {
            prev.push(prefix + n)
        }
    }
}

/// Every entry beside the path `parts`, below the first level, as archive
/// paths; `None` when the path does not resolve to directories.
pub open spec fn beside(t: TreeM, parts: Seq<Seq<char>>, prefix: Seq<char>, first: bool) -> Option<Seq<Seq<char>>>
    decreases parts.len(),
{
    if parts.len() == 0 {
        Some(Seq::empty())
    } else {
        let here = if first { Seq::empty() } else { others(t, parts[0], prefix) };
        match lookup(t, lower(parts[0])) {
            Some(i) => match t[i].1 {
                NodeM::Dir { name, tree } => match beside(tree, parts.drop_first(), prefix + name + seq!['/'], false) {
                    Some(rest) => Some(here + rest),
                    None => None,
                },
                NodeM::File { .. } => None,
            },
            None => None,
        }
    }
}

impl ArchiveTree {
    /// The names of this level's entries other than `part`, below `prefix`.
    fn others_exec(&self, part: &[char], prefix: &String, out: &mut Vec<String>)
        ensures
            views(final(out)@) == views(old(out)@) + others(self.model(), part@, prefix@),
    {
        proof {
            lemma_entries_model(self.entries@);
        }
        let ghost t = self.model();
        let ghost start = views(out@);
        let mut i: usize = 0;
        while i < self.entries.len()
            invariant
                i <= self.entries@.len(),
                t == self.model(),
                t.len() == self.entries@.len(),
                forall|j: int| 0 <= j < self.entries@.len() ==> #[trigger] t[j] == (self.entries@[j].0@, self.entries@[j].1.model()),
                views(out@) == start + others(t.take(i as int), part@, prefix@),
            decreases self.entries.len() - i,
        {
            let ghost ti = t.take(i + 1);
            assert(ti.drop_last() =~= t.take(i as int));
            assert(ti.last() == t[i as int]);
            let name = match &self.entries[i].1 {
                TreeNode::Dir { name, .. } => name,
                TreeNode::File { name } => name,
            };
            let nv = chars_of(name.as_str());
            if !eq_ic_chars(&nv, part) {
                let mut p = prefix.clone();
                push_str(&mut p, name.as_str());
                let ghost before = views(out@);
                out.push(p);
                assert(views(out@) =~= before.push(prefix@ + name@));
            }
            assert(views(out@) =~= start + others(ti, part@, prefix@));
            i = i + 1;
        }
        assert(t.take(i as int) =~= t);
    }

    /// Every entry sitting beside the `data_dir` path, as archive paths; the
    /// first level is skipped. `None` when the path does not resolve.
    fn root_entries_beside(&self, data_dir: &str) -> (r: Option<Vec<String>>)
        ensures
            match r {
                Some(v) => beside(self.model(), path_parts(data_dir@), Seq::empty(), true) == Some(views(v@)),
                None => beside(self.model(), path_parts(data_dir@), Seq::empty(), true) is None,
            },
    {
        let v = chars_of(data_dir);
        let parts = path_parts_exec(&v);
        let ghost ps = parts@.map_values(|p: Vec<char>| p@);
        let mut out: Vec<String> = Vec::new();
        let mut cur: &ArchiveTree = self;
        let mut prefix = String::new();
        let mut k: usize = 0;
        assert(ps.skip(0) =~= ps);
        while k < parts.len()
            invariant
                k <= parts@.len(),
                ps == parts@.map_values(|p: Vec<char>| p@),
                ps == path_parts(v@),
                v@ == data_dir@,
                beside(self.model(), ps, Seq::empty(), true) == match beside(cur.model(), ps.skip(k as int), prefix@, k == 0) {
                    Some(rest) => Some(views(out@) + rest),
                    None => None::<Seq<Seq<char>>>,
                },
            decreases parts.len() - k,
        {
            let ghost rest = ps.skip(k as int);
            assert(rest[0] == parts@[k as int]@);
            assert(rest.drop_first() =~= ps.skip(k + 1));
            let ghost out0 = views(out@);
            if k > 0 {
                cur.others_exec(&parts[k], &prefix, &mut out);
            }
            let ghost here = if k == 0 { Seq::<Seq<char>>::empty() } else { others(cur.model(), rest[0], prefix@) };
            assert(views(out@) == out0 + here);
            let key = lower_vec(&parts[k]);
            proof {
                lemma_entries_model(cur.entries@);
            }
            match cur.find_key(&key) {
                Some(i) => {
                    proof {
                        lemma_lookup(cur.model(), key@);
                    }
                    assert(cur.model()[i as int] == (cur.entries@[i as int].0@, cur.entries@[i as int].1.model()));
                    match &cur.entries[i].1 {
                        TreeNode::Dir { name, tree } => {
                            let ghost p0 = prefix@;
                            push_str(&mut prefix, name.as_str());
                            push_char(&mut prefix, '/');
                            assert(prefix@ =~= p0 + name@ + seq!['/']);
                            proof {
                                match beside(tree.model(), ps.skip(k + 1), prefix@, false) {
                                    Some(r2) => {
                                        assert(out0 + (here + r2) =~= views(out@) + r2);
                                    },
                                    None => {},
                                }
                            }
                            cur = tree;
                        },
                        TreeNode::File { .. } => {
                            return None;
                        },
                    }
                },
                None => {
                    return None;
                },
            }
            k = k + 1;
        }
        assert(ps.skip(k as int).len() == 0);
        assert(views(out@) + Seq::<Seq<char>>::empty() =~= views(out@));
        Some(out)
    }
}


/// How a Root Builder archive splits between the game's data directory and
/// the game install root.
#[derive(Debug, Clone, PartialEq, Eq)]
pub struct RootSplit {
    /// `/`-joined prefix of the subtree that becomes the mod root; `None` when
    /// the archive is root content only.
    pub data_prefix: Option<String>,
    /// The archive's own `Root` directory, when it shipped one.
    pub root_dir: Option<String>,
    /// Top-level entries placed into the mod's `Root/`, in tree order.
    pub root_entries: Vec<String>,
}

/// The view of an optional string.
pub open spec fn opt_view(o: Option<String>) -> Option<Seq<char>> {
    match o {
        Some(s) => Some(s@),
        None => None,
    }
}

/// A split as `(data_prefix, root_dir, root_entries)`.
pub type SplitM = (Option<Seq<char>>, Option<Seq<char>>, Seq<Seq<char>>);

impl RootSplit {
    pub open spec fn model(&self) -> SplitM {
        (opt_view(self.data_prefix), opt_view(self.root_dir), views(self.root_entries@))
    }
}

/// What a scan of the top level has seen so far: the `Data` directory, the
/// `Root` directory, the game's own directory, the loose non-documentation
/// files and whether one of them is an executable image.
pub struct ScanM {
    pub data: Option<Seq<char>>,
    pub root: Option<Seq<char>>,
    pub game: Option<Seq<char>>,
    pub entries: Seq<Seq<char>>,
    pub image: bool,
}

/// One step of the top-level scan; `None` once the level has a shape that is
/// not modelled (a second anchor directory, or any other directory).
pub open spec fn scan_step(st: Option<ScanM>, e: (Seq<char>, NodeM), gd: Seq<char>) -> Option<ScanM> {
    match st {
        None => None,
        Some(s) => match e.1 {
            NodeM::Dir { name, .. } => if eq_ic(name, "data"@) {
                if s.data is Some { None } else {
                    Some(ScanM { data: Some(name), root: s.root, game: s.game, entries: s.entries, image: s.image })
                }
            } else if eq_ic(name, "root"@) {
                if s.root is Some { None } else {
                    Some(ScanM { data: s.data, root: Some(name), game: s.game, entries: s.entries, image: s.image })
                }
            } else if gd.len() > 0 && eq_ic(name, gd) {
                if s.game is Some { None } else {
                    Some(ScanM { data: s.data, root: s.root, game: Some(name), entries: s.entries, image: s.image })
                }
            } else {
                None
            },
            NodeM::File { name } => Some(ScanM {
                data: s.data,
                root: s.root,
                game: s.game,
                entries: if is_doc(name) { s.entries } else { s.entries.push(name) },
                image: s.image || is_image(name),
            }),
        },
    }
}

/// The scan of a whole level.
pub open spec fn scan(t: TreeM, gd: Seq<char>) -> Option<ScanM>
    decreases t.len(),
{
    if t.len() == 0 {
        Some(ScanM { data: None, root: None, game: None, entries: Seq::empty(), image: false })
    } else {
        scan_step(scan(t.drop_last(), gd), t.last(), gd)
    }
}

/// The Root Builder split of a level: the game-directory shape, the pure root
/// mod, or a `Data` directory with root content beside it.
pub open spec fn root_split(t: TreeM, r: &LayoutRules) -> Option<SplitM> {
    let gd = game_dir_of(r.data_dir@);
    match scan(t, gd) {
        None => None,
        Some(st) => match st.game {
            Some(g) => if st.data is Some || st.root is Some {
                None
            } else {
                let dd = r.data_dir@;
                match descend(t, path_parts(dd)) {
                    None => Some((None, None, seq![g] + st.entries)),
                    Some(_) => match beside(t, path_parts(dd), Seq::empty(), true) {
                        Some(b) => Some((Some(trim_slashes(dd)), None, b + st.entries)),
                        None => None,
                    },
                }
            },
            None => match st.data {
                None => if simple_base(t, r) is Some || (st.root is None && !st.image) {
                    None
                } else {
                    Some((None, st.root, st.entries))
                },
                Some(d) => if st.root is None && st.entries.len() == 0 {
                    None
                } else {
                    match lookup(t, lower(d)) {
                        Some(i) => match t[i].1 {
                            NodeM::Dir { tree, .. } => match simple_base(tree, r) {
                                Some(inner) => Some((Some(d + seq!['/'] + inner), st.root, st.entries)),
                                None => None,
                            },
                            NodeM::File { .. } => None,
                        },
                        None => None,
                    }
                },
            },
        },
    }
}

/// Once the scan has refused a prefix of the level, it refuses the level.
pub proof fn lemma_scan_none(t: TreeM, gd: Seq<char>, n: int)
    requires
        0 <= n <= t.len(),
        scan(t.take(n), gd) is None,
    ensures
        scan(t, gd) is None,
    decreases t.len() - n,
{
    if n < t.len() {
        assert(t.take(n + 1).drop_last() =~= t.take(n));
        lemma_scan_none(t, gd, n + 1);
    } else {
        assert(t.take(n) =~= t);
    }
}

fn opt_clone(o: &Option<String>) -> (r: Option<String>)
    ensures
        opt_view(r) == opt_view(*o),
{
    match o {
        Some(s) => Some(s.clone()),
        None => None,
    }
}

impl ArchiveTree {
    /// The Root Builder shape: one archive carrying both data-relative content
    /// and content for the game install root. Matched when there is one `Data`
    /// directory whose contents resolve as a mod root plus root content beside
    /// it, when the archive is root content only (an explicit `Root/` or an
    /// executable image, and no resolvable mod root), or when it leads with
    /// the game's own directory. Any other top-level directory disqualifies it;
    /// documentation beside it is dropped. On a well-formed tree and a layout
    /// without a game directory, a split agrees with the simple installer (see
    /// [`crate::picker::split_agrees`]).
    pub fn root_builder_split(&self, rules: LayoutRules) -> (r: Option<RootSplit>)
        ensures
            match r {
                Some(sp) => root_split(self.model(), &rules) == Some(sp.model()),
                None => root_split(self.model(), &rules) is None,
            },
            r matches Some(sp) ==> (crate::picker::tree_wf(self.model()) && game_dir_of(rules.data_dir@).len() == 0
                ==> crate::picker::split_agrees(self.model(), &rules, sp.model())),
    {
        let r = self.split_level(&rules);
        proof {
            if crate::picker::tree_wf(self.model()) && game_dir_of(rules.data_dir@).len() == 0 {
                crate::picker::lemma_root_split_agrees(self.model(), &rules);
            }
        }
        r
    }

    fn split_level(&self, rules: &LayoutRules) -> (r: Option<RootSplit>)
        ensures
            match r {
                Some(sp) => root_split(self.model(), rules) == Some(sp.model()),
                None => root_split(self.model(), rules) is None,
            },
    {
        let gd = rules.game_dir();
        proof {
            lemma_entries_model(self.entries@);
        }
        let ghost t = self.model();
        let mut data: Option<String> = None;
        let mut root_dir: Option<String> = None;
        let mut game: Option<String> = None;
        let mut root_entries: Vec<String> = Vec::new();
        let mut has_image = false;
        let mut i: usize = 0;
        assert(t.take(0) =~= Seq::<(Seq<char>, NodeM)>::empty());
        assert(views(root_entries@) =~= Seq::<Seq<char>>::empty());
        while i < self.entries.len()
            invariant
                i <= self.entries@.len(),
                t == self.model(),
                t.len() == self.entries@.len(),
                forall|j: int| 0 <= j < self.entries@.len() ==> #[trigger] t[j] == (self.entries@[j].0@, self.entries@[j].1.model()),
                gd@ == game_dir_of(rules.data_dir@),
                scan(t.take(i as int), gd@) == Some(ScanM {
                    data: opt_view(data),
                    root: opt_view(root_dir),
                    game: opt_view(game),
                    entries: views(root_entries@),
                    image: has_image,
                }),
            decreases self.entries.len() - i,
        {
            let ghost ti = t.take(i + 1);
            assert(ti.drop_last() =~= t.take(i as int));
            assert(ti.last() == t[i as int]);
            match &self.entries[i].1 {
                TreeNode::Dir { name, .. } => {
                    if eq_ic_str(name.as_str(), "data") {
                        if data.is_some() {
                            proof {
                                lemma_scan_none(t, gd@, i + 1);
                            }
                            return None;
                        }
                        data = Some(name.clone());
                    } else if eq_ic_str(name.as_str(), "root") {
                        if root_dir.is_some() {
                            proof {
                                lemma_scan_none(t, gd@, i + 1);
                            }
                            return None;
                        }
                        root_dir = Some(name.clone());
                    } else if !gd.as_str().is_empty() && eq_ic_str(name.as_str(), gd.as_str()) {
                        if game.is_some() {
                            proof {
                                lemma_scan_none(t, gd@, i + 1);
                            }
                            return None;
                        }
                        game = Some(name.clone());
                    } else {
                        proof {
                            lemma_scan_none(t, gd@, i + 1);
                        }
                        return None;
                    }
                },
                TreeNode::File { name } => {
                    if is_image_exec(name.as_str()) {
                        has_image = true;
                    }
                    if !is_doc_exec(name.as_str()) {
                        let ghost before = root_entries@;
                        root_entries.push(name.clone());
                        assert(views(root_entries@) =~= views(before).push(name@));
                    }
                },
            }
            i = i + 1;
        }
        assert(t.take(i as int) =~= t);
        match game {
            Some(g) => {
                if data.is_some() || root_dir.is_some() {
                    return None;
                }
                let entries = match self.subtree(rules.data_dir.as_str()) {
                    None => {
                        let mut e: Vec<String> = Vec::new();
                        e.push(g);
                        let ghost e0 = e@;
                        let ghost re = root_entries@;
                        e.append(&mut root_entries);
                        assert(views(e@) =~= views(e0) + views(re));
                        (None, e)
                    },
                    Some(_) => {
                        match self.root_entries_beside(rules.data_dir.as_str()) {
                            Some(mut e) => {
                                let ghost e0 = e@;
                                let ghost re = root_entries@;
                                e.append(&mut root_entries);
                                assert(views(e@) =~= views(e0) + views(re));
                                let dv = chars_of(rules.data_dir.as_str());
                                let tv = trim_slashes_exec(&dv);
                                (Some(string_of(&tv)), e)
                            },
                            None => {
                                return None;
                            },
                        }
                    },
                };
                let (data_prefix, root_entries) = entries;
                Some(RootSplit { data_prefix, root_dir: None, root_entries })
            },
            None => match data {
                None => {
                    if self.base_of(rules).is_some() || (root_dir.is_none() && !has_image) {
                        return None;
                    }
                    Some(RootSplit { data_prefix: None, root_dir, root_entries })
                },
                Some(d) => {
                    if root_dir.is_none() && root_entries.len() == 0 {
                        return None;
                    }
                    let dv = chars_of(d.as_str());
                    let key = lower_vec(&dv);
                    match self.find_key(&key) {
                        Some(k) => {
                            proof {
                                lemma_lookup(t, key@);
                            }
                            assert(t[k as int] == (self.entries@[k as int].0@, self.entries@[k as int].1.model()));
                            match &self.entries[k].1 {
                                TreeNode::Dir { tree, .. } => match tree.base_of(rules) {
                                    Some(inner) => {
                                        let p = join_slash(&d, inner);
                                        Some(RootSplit { data_prefix: Some(string_of(&p)), root_dir, root_entries })
                                    },
                                    None => None,
                                },
                                TreeNode::File { .. } => None,
                            }
                        },
                        None => None,
                    }
                },
            },
        }
    }
}


/// How many independently valid sub-packages a tree needs before it is offered
/// as a BAIN install.
pub const BAIN_MIN_SUBPACKAGES: usize = 2;

/// A sub-package is ticked by default when its name starts with `00` or the
/// previous install picked it (ignoring ASCII case).
pub open spec fn default_ticked(name: Seq<char>, previous: Seq<Seq<char>>) -> bool {
    starts_with(name, seq!['0', '0']) || has_ic(previous, name)
}

/// The default ticks for a BAIN package, parallel to `subpackages`: every
/// sub-package whose name starts with `00`, plus anything picked last time.
pub fn bain_default_selection(subpackages: &[String], previous: &[String]) -> (r: Vec<bool>)
    ensures
        r@.len() == subpackages@.len(),
        forall|i: int| 0 <= i < subpackages@.len() ==> r@[i] == default_ticked(subpackages@[i]@, views(previous@)),
{
    let mut out: Vec<bool> = Vec::new();
    for i in 0..subpackages.len()
        invariant
            out@.len() == i,
            forall|j: int| 0 <= j < i ==> out@[j] == default_ticked(subpackages@[j]@, views(previous@)),
    {
        let s = chars_of(subpackages[i].as_str());
        let zz = s.len() >= 2 && s[0] == '0' && s[1] == '0';
        assert(zz == starts_with(s@, seq!['0', '0'])) by {
            if s@.len() >= 2 {
                assert(s@.take(2) =~= seq![s@[0], s@[1]]);
            }
        }
        let mut hit = false;
        let mut k: usize = 0;
        while k < previous.len()
            invariant
                k <= previous@.len(),
                i < subpackages@.len(),
                s@ == subpackages@[i as int]@,
                hit == exists|j: int| 0 <= j < k && eq_ic(#[trigger] views(previous@)[j], s@),
            decreases previous.len() - k,
        {
            if eq_ic_str(previous[k].as_str(), subpackages[i].as_str()) {
                assert(views(previous@)[k as int] == previous@[k as int]@);
                hit = true;
            }
            k = k + 1;
        }
        out.push(zz || hit);
    }
    out
}

/// What kinds of content a mod ships, by a shallow structural scan.
#[derive(Debug, Clone, Copy, PartialEq, Eq, Structural)]
pub struct ContentFlags {
    pub plugins: bool,
    pub bsa: bool,
    pub textures: bool,
    pub meshes: bool,
    pub scripts: bool,
    pub skse: bool,
    pub interface: bool,
    pub sound: bool,
    pub facegen: bool,
}

impl Default for ContentFlags {
    fn default() -> (c: ContentFlags)
        ensures
            c == (ContentFlags {
                plugins: false,
                bsa: false,
                textures: false,
                meshes: false,
                scripts: false,
                skse: false,
                interface: false,
                sound: false,
                facegen: false,
            }),
    {
        ContentFlags {
            plugins: false,
            bsa: false,
            textures: false,
            meshes: false,
            scripts: false,
            skse: false,
            interface: false,
            sound: false,
            facegen: false,
        }
    }
}

/// `s` with the letter `ch` appended when `on`, space-separated.
pub open spec fn add_tag(s: Seq<char>, on: bool, ch: char) -> Seq<char> {
    if on {
        if s.len() == 0 { seq![ch] } else { s + seq![' ', ch] }
    } else {
        s
    }
}

/// The letters of the content kinds in icon order, space-separated:
/// P plugin, A archive, T textures, M meshes, S scripts, K script extender,
/// I interface, U sound, F FaceGen.
pub open spec fn tags_of(c: ContentFlags) -> Seq<char> {
    let s = add_tag(Seq::empty(), c.plugins, 'P');
    let s = add_tag(s, c.bsa, 'A');
    let s = add_tag(s, c.textures, 'T');
    let s = add_tag(s, c.meshes, 'M');
    let s = add_tag(s, c.scripts, 'S');
    let s = add_tag(s, c.skse, 'K');
    let s = add_tag(s, c.interface, 'I');
    let s = add_tag(s, c.sound, 'U');
    add_tag(s, c.facegen, 'F')
}

fn push_tag(s: &mut String, on: bool, ch: char)
    ensures
        final(s)@ == add_tag(old(s)@, on, ch),
{
    if on {
        if !s.as_str().is_empty() {
            push_char(s, ' ');
        }
        push_char(s, ch);
        assert(s@ =~= add_tag(old(s)@, on, ch));
    }
}

/// The directory names that set each content kind.
pub open spec fn kind_dirs(name: Seq<char>) -> ContentKind {
    if name == "textures"@ || name == "icons"@ || name == "bookart"@ {
        ContentKind::Textures
    } else if name == "meshes"@ {
        ContentKind::Meshes
    } else if name == "interface"@ || name == "menus"@ {
        ContentKind::Interface
    } else if name == "music"@ || name == "sound"@ {
        ContentKind::Sound
    } else if name == "scripts"@ {
        ContentKind::Scripts
    } else if name == "skse"@ || name == "obse"@ || name == "f4se"@ || name == "nvse"@ || name == "fose"@
        || name == "mwse"@ || name == "dllplugins"@ {
        ContentKind::Skse
    } else {
        ContentKind::Other
    }
}

/// A content kind a top-level directory can announce.
pub enum ContentKind {
    Textures,
    Meshes,
    Interface,
    Sound,
    Scripts,
    Skse,
    Other,
}

/// The flags after seeing one top-level entry (its name already lowercased):
/// a directory by its name, plus FaceGen when a `meshes` or `textures`
/// directory holds a `FaceGenData` child; a file by its extension.
pub open spec fn classify_step(c: ContentFlags, name: Seq<char>, is_dir: bool, children: Seq<Seq<char>>) -> ContentFlags {
    if is_dir {
        let k = kind_dirs(name);
        let fg = (name == "meshes"@ || name == "textures"@) && has_ic(children, "facegendata"@);
        ContentFlags {
            plugins: c.plugins,
            bsa: c.bsa,
            textures: c.textures || k is Textures,
            meshes: c.meshes || k is Meshes,
            scripts: c.scripts || k is Scripts,
            skse: c.skse || k is Skse,
            interface: c.interface || k is Interface,
            sound: c.sound || k is Sound,
            facegen: c.facegen || fg,
        }
    } else {
        match rsplit_once(name, '.') {
            Some((_, e)) => if e == "esp"@ || e == "esm"@ || e == "esl"@ {
                ContentFlags { plugins: true, ..c }
            } else if e == "bsa"@ || e == "ba2"@ {
                ContentFlags { bsa: true, ..c }
            } else {
                c
            },
            None => c,
        }
    }
}

/// No flag is ever cleared.
pub open spec fn flags_grow(a: ContentFlags, b: ContentFlags) -> bool {
    &&& a.plugins ==> b.plugins
    &&& a.bsa ==> b.bsa
    &&& a.textures ==> b.textures
    &&& a.meshes ==> b.meshes
    &&& a.scripts ==> b.scripts
    &&& a.skse ==> b.skse
    &&& a.interface ==> b.interface
    &&& a.sound ==> b.sound
    &&& a.facegen ==> b.facegen
}

/// The flag each conventional top-level directory name (lowercased) raises:
/// `textures`, `icons` and `bookart` textures; `meshes` meshes; `interface`
/// and `menus` interface; `music` and `sound` sound; `scripts` scripts; the
/// script-extender folders (`skse`, `obse`, `f4se`, `nvse`, `fose`, `mwse`,
/// `dllplugins`) the script extender.
pub open spec fn dir_sets_its_kind(n: Seq<char>, c: ContentFlags) -> bool {
    &&& (n == "textures"@ || n == "icons"@ || n == "bookart"@) ==> c.textures
    &&& n == "meshes"@ ==> c.meshes
    &&& (n == "interface"@ || n == "menus"@) ==> c.interface
    &&& (n == "music"@ || n == "sound"@) ==> c.sound
    &&& n == "scripts"@ ==> c.scripts
    &&& (n == "skse"@ || n == "obse"@ || n == "f4se"@ || n == "nvse"@ || n == "fose"@ || n == "mwse"@
        || n == "dllplugins"@) ==> c.skse
}

/// A top-level directory raises the flag of its kind, whatever was seen
/// before: a `Scripts` folder (any case) always marks scripts, `Meshes`
/// meshes, and so on.
pub proof fn lemma_classify_dirs(c: ContentFlags, n: Seq<char>, children: Seq<Seq<char>>)
    ensures
        dir_sets_its_kind(n, classify_step(c, n, true, children)),
{
    reveal_strlit("textures");
    reveal_strlit("icons");
    reveal_strlit("bookart");
    reveal_strlit("meshes");
    reveal_strlit("interface");
    reveal_strlit("menus");
    reveal_strlit("music");
    reveal_strlit("sound");
    reveal_strlit("scripts");
    reveal_strlit("skse");
    reveal_strlit("obse");
    reveal_strlit("f4se");
    reveal_strlit("nvse");
    reveal_strlit("fose");
    reveal_strlit("mwse");
    reveal_strlit("dllplugins");
    let r = classify_step(c, n, true, children);
    if n == "scripts"@ {
        assert(n[0] == 's' && n[1] == 'c');
        assert(kind_dirs(n) is Scripts);
    }
    if n == "meshes"@ {
        assert(n[0] == 'm' && n[1] == 'e');
        assert(kind_dirs(n) is Meshes);
    }
    if n == "interface"@ || n == "menus"@ {
        assert(n[0] == 'i' || (n[0] == 'm' && n[1] == 'e' && n[2] == 'n'));
        assert(kind_dirs(n) is Interface);
    }
    if n == "music"@ || n == "sound"@ {
        assert((n[0] == 'm' && n[1] == 'u') || (n[0] == 's' && n[1] == 'o'));
        assert(kind_dirs(n) is Sound);
    }
    if n == "skse"@ || n == "obse"@ || n == "f4se"@ || n == "nvse"@ || n == "fose"@ || n == "mwse"@ || n == "dllplugins"@ {
        assert(n.len() == 4 || n.len() == 10);
        assert(n[0] == 's' ==> n[1] == 'k');
        assert(kind_dirs(n) is Skse);
    }
}

/// The flag a top-level file raises by its (lowercased) extension: `esp`,
/// `esm` and `esl` a plugin, `bsa` and `ba2` an archive.
pub open spec fn file_sets_its_kind(n: Seq<char>, c: ContentFlags) -> bool {
    match rsplit_once(n, '.') {
        Some((_, e)) => {
            &&& (e == "esp"@ || e == "esm"@ || e == "esl"@) ==> c.plugins
            &&& (e == "bsa"@ || e == "ba2"@) ==> c.bsa
        },
        None => true,
    }
}

/// A top-level plugin file always marks a plugin, and an archive file an
/// archive, whatever was seen before.
pub proof fn lemma_classify_files(c: ContentFlags, n: Seq<char>, children: Seq<Seq<char>>)
    ensures
        file_sets_its_kind(n, classify_step(c, n, false, children)),
{
    reveal_strlit("esp");
    reveal_strlit("esm");
    reveal_strlit("esl");
    reveal_strlit("bsa");
    reveal_strlit("ba2");
    match rsplit_once(n, '.') {
        Some((_, e)) => {
            if e == "bsa"@ || e == "ba2"@ {
                assert(e[0] == 'b');
            }
        },
        None => {},
    }
}

/// Seeing an entry never clears a flag.
pub proof fn lemma_classify_grows(c: ContentFlags, n: Seq<char>, is_dir: bool, children: Seq<Seq<char>>)
    ensures
        flags_grow(c, classify_step(c, n, is_dir, children)),
{
}

fn str_is(v: &[char], s: &str) -> (b: bool)
    ensures
        b == (v@ == s@),
{
    let w = chars_of(s);
    eq_chars(v, &w)
}

impl ContentFlags {
    /// A compact letters string in icon order, e.g. `"P A T M"` (empty if none).
    pub fn tags(&self) -> (s: String)
        ensures
            s@ == tags_of(*self),
    {
        let mut s = String::new();
        push_tag(&mut s, self.plugins, 'P');
        push_tag(&mut s, self.bsa, 'A');
        push_tag(&mut s, self.textures, 'T');
        push_tag(&mut s, self.meshes, 'M');
        push_tag(&mut s, self.scripts, 'S');
        push_tag(&mut s, self.skse, 'K');
        push_tag(&mut s, self.interface, 'I');
        push_tag(&mut s, self.sound, 'U');
        push_tag(&mut s, self.facegen, 'F');
        s
    }

    /// Account for one top-level entry of a mod directory. `name` is the
    /// entry's name; `children` lists a directory's own entries (only consulted
    /// for `meshes` and `textures`).
    pub fn classify_entry(&mut self, name: &str, is_dir: bool, children: &[String])
        ensures
            *final(self) == classify_step(*old(self), lower(name@), is_dir, views(children@)),
            flags_grow(*old(self), *final(self)),
            is_dir ==> dir_sets_its_kind(lower(name@), *final(self)),
            !is_dir ==> file_sets_its_kind(lower(name@), *final(self)),
    {
        proof {
            lemma_classify_files(*old(self), lower(name@), views(children@));
            lemma_classify_dirs(*old(self), lower(name@), views(children@));
            lemma_classify_grows(*old(self), lower(name@), is_dir, views(children@));
        }
        let n = chars_of(name);
        let n = lower_vec(&n);
        if is_dir {
            if str_is(&n, "textures") || str_is(&n, "icons") || str_is(&n, "bookart") {
                self.textures = true;
            } else if str_is(&n, "meshes") {
                self.meshes = true;
            } else if str_is(&n, "interface") || str_is(&n, "menus") {
                self.interface = true;
            } else if str_is(&n, "music") || str_is(&n, "sound") {
                self.sound = true;
            } else if str_is(&n, "scripts") {
                self.scripts = true;
            } else if str_is(&n, "skse") || str_is(&n, "obse") || str_is(&n, "f4se") || str_is(&n, "nvse")
                || str_is(&n, "fose") || str_is(&n, "mwse") || str_is(&n, "dllplugins") {
                self.skse = true;
            }
            if (str_is(&n, "meshes") || str_is(&n, "textures")) && !self.facegen {
                if list_has_ic(children, "facegendata") {
                    self.facegen = true;
                }
            }
        } else {
            match rsplit_once_vec(&n, '.') {
                Some((_, e)) => {
                    if str_is(&e, "esp") || str_is(&e, "esm") || str_is(&e, "esl") {
                        self.plugins = true;
                    } else if str_is(&e, "bsa") || str_is(&e, "ba2") {
                        self.bsa = true;
                    }
                },
                None => {},
            }
        }
    }
}

} // verus!
