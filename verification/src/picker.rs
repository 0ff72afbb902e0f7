//! The rows a manual-install picker shows and the paths they hand back: every
//! directory row of a flattened tree names a level `subtree` finds, and no
//! file row does.

use vstd::prelude::*;

use crate::archive::{
    build, child_path, data_text_at, data_valid, descend, find_sep, flat, flat_entries, insert_path, insert_pos,
    is_sep, lemma_find_sep, root_valid, simple_base, single_subdir, LayoutRules, scan, ScanM, root_split, game_dir_of,
    is_doc, is_image, doc_exts, image_exts, ext_of,
    lemma_find_sep_at, lemma_lookup, lemma_lookup_at, lookup, node_name, path_parts, NodeM, RowM, TreeM, MAX_TREE_DEPTH,
};
use crate::text::{eq_ic, lower};

verus! {

/// A name a tree entry can carry: not empty and without a separator.
pub open spec fn entry_name(n: Seq<char>) -> bool {
    n.len() > 0 && forall|j: int| 0 <= j < n.len() ==> !is_sep(n[j])
}

/// A well-formed tree level: keys unique, each the lowercased name of its
/// node, names fit for a path, and every subtree well-formed.
pub open spec fn tree_wf(t: TreeM) -> bool
    decreases t,
{
    &&& forall|i: int, j: int| 0 <= i < j < t.len() ==> t[i].0 != t[j].0
    &&& forall|i: int| 0 <= i < t.len() ==> t[i].0 == lower(node_name(t[i].1)) && entry_name(node_name(t[i].1))
    &&& forall|i: int| 0 <= i < t.len() ==> match #[trigger] t[i].1 {
        NodeM::Dir { tree, .. } => tree_wf(tree),
        NodeM::File { .. } => true,
    }
}

/// Splitting two paths joined by a separator: the parts of the one, then the
/// parts of the other.
proof fn lemma_path_parts_join(a: Seq<char>, c: char, b: Seq<char>)
    requires
        is_sep(c),
    ensures
        path_parts(a + seq![c] + b) == path_parts(a) + path_parts(b),
    decreases a.len(),
{
    let s = a + seq![c] + b;
    lemma_find_sep(a);
    match find_sep(a) {
        Some(i) => {
            lemma_find_sep_at(s, i);
            assert(s.take(i) =~= a.take(i));
            assert(s.skip(i + 1) =~= a.skip(i + 1) + seq![c] + b);
            lemma_path_parts_join(a.skip(i + 1), c, b);
            if i > 0 {
                assert(path_parts(s) =~= path_parts(a) + path_parts(b));
            } else {
                assert(path_parts(s) =~= path_parts(a) + path_parts(b));
            }
        },
        None => {
            lemma_find_sep_at(s, a.len() as int);
            assert(s.take(a.len() as int) =~= a);
            assert(s.skip(a.len() as int + 1) =~= b);
            if a.len() > 0 {
                assert(path_parts(s) =~= path_parts(a) + path_parts(b));
            } else {
                assert(path_parts(a) =~= Seq::<Seq<char>>::empty());
                assert(path_parts(s) =~= path_parts(a) + path_parts(b));
            }
        },
    }
}

/// The path of a child: the parent's parts, then the child's name.
proof fn lemma_child_parts(prefix: Seq<char>, name: Seq<char>)
    requires
        entry_name(name),
    ensures
        path_parts(child_path(prefix, name)) == path_parts(prefix).push(name),
{
    lemma_find_sep_at(name, name.len() as int);
    assert(path_parts(name) == seq![name]);
    if prefix.len() == 0 {
        lemma_find_sep_at(prefix, 0);
        assert(path_parts(prefix) =~= Seq::<Seq<char>>::empty());
        assert(path_parts(prefix).push(name) =~= seq![name]);
    } else {
        lemma_path_parts_join(prefix, '/', name);
        assert(path_parts(prefix) + seq![name] =~= path_parts(prefix).push(name));
    }
}

/// Following parts, then more parts.
proof fn lemma_descend_push(t: TreeM, ps: Seq<Seq<char>>, name: Seq<char>)
    ensures
        descend(t, ps.push(name)) == match descend(t, ps) {
            Some(u) => descend(u, seq![name]),
            None => None::<TreeM>,
        },
    decreases ps.len(),
{
    if ps.len() == 0 {
        assert(ps.push(name) =~= seq![name]);
    } else {
        assert(ps.push(name)[0] == ps[0]);
        assert(ps.push(name).drop_first() =~= ps.drop_first().push(name));
        match lookup(t, lower(ps[0])) {
            Some(i) => match t[i].1 {
                NodeM::Dir { tree, .. } => {
                    lemma_descend_push(tree, ps.drop_first(), name);
                },
                NodeM::File { .. } => {},
            },
            None => {},
        }
    }
}

/// In a well-formed level, an entry's own name leads to it.
proof fn lemma_descend_entry(t: TreeM, i: int)
    requires
        tree_wf(t),
        0 <= i < t.len(),
    ensures
        descend(t, seq![node_name(t[i].1)]) == match t[i].1 {
            NodeM::Dir { tree, .. } => Some(tree),
            NodeM::File { .. } => None::<TreeM>,
        },
{
    let name = node_name(t[i].1);
    assert(t[i].0 == lower(name));
    assert(forall|j: int| 0 <= j < i ==> t[j].0 != t[i].0);
    lemma_lookup_at(t, lower(name), i);
    assert(seq![name][0] == name);
    assert(seq![name].drop_first() =~= Seq::<Seq<char>>::empty());
    match t[i].1 {
        NodeM::Dir { tree, .. } => {
            assert(descend(tree, Seq::<Seq<char>>::empty()) == Some(tree));
        },
        NodeM::File { .. } => {},
    }
}

/// Each row's path, followed from the root, leads to a level exactly when the
/// row is a directory.
pub open spec fn rows_resolve(t0: TreeM, rows: Seq<RowM>) -> bool {
    forall|k: int| 0 <= k < rows.len() ==> (descend(t0, path_parts(#[trigger] rows[k].2)) is Some <==> rows[k].3)
}

proof fn lemma_flat_resolves(t0: TreeM, t: TreeM, prefix: Seq<char>, depth: nat)
    requires
        tree_wf(t),
        descend(t0, path_parts(prefix)) == Some(t),
    ensures
        rows_resolve(t0, flat(t, prefix, depth)),
    decreases t, 1int,
{
    if depth < MAX_TREE_DEPTH {
        assert(t.take(t.len() as int) =~= t);
        lemma_flat_entries_resolve(t0, t, t, prefix, depth);
    }
}

proof fn lemma_flat_entries_resolve(t0: TreeM, full: TreeM, t: TreeM, prefix: Seq<char>, depth: nat)
    requires
        tree_wf(full),
        descend(t0, path_parts(prefix)) == Some(full),
        t.len() <= full.len(),
        t == full.take(t.len() as int),
    ensures
        rows_resolve(t0, flat_entries(t, prefix, depth)),
    decreases t, 0int,
{
    if t.len() > 0 {
        let i = t.len() - 1;
        let e = t[i];
        assert(e == full[i]);
        assert(t.drop_last() == full.take(i));
        lemma_flat_entries_resolve(t0, full, t.drop_last(), prefix, depth);
        let name = node_name(e.1);
        let path = child_path(prefix, name);
        assert(entry_name(node_name(full[i].1)));
        lemma_child_parts(prefix, name);
        lemma_descend_push(t0, path_parts(prefix), name);
        lemma_descend_entry(full, i);
        let prev = flat_entries(t.drop_last(), prefix, depth);
        let row: RowM = (depth, name, path, e.1 is Dir);
        let sub = match e.1 {
            NodeM::Dir { tree, .. } => flat(tree, path, depth + 1),
            NodeM::File { .. } => Seq::<RowM>::empty(),
        };
        match e.1 {
            NodeM::Dir { tree, .. } => {
                assert(tree_wf(tree)) by {
                    assert(match full[i].1 {
                        NodeM::Dir { tree, .. } => tree_wf(tree),
                        NodeM::File { .. } => true,
                    });
                }
                lemma_flat_resolves(t0, tree, path, depth + 1);
            },
            NodeM::File { .. } => {},
        }
        let all = flat_entries(t, prefix, depth);
        assert(all == prev + seq![row] + sub);
        assert forall|k: int| 0 <= k < all.len() implies (descend(t0, path_parts(#[trigger] all[k].2)) is Some <==> all[k].3) by {
            if k < prev.len() {
                assert(all[k] == prev[k]);
            } else if k == prev.len() {
                assert(all[k] == row);
            } else {
                assert(all[k] == sub[k - prev.len() - 1]);
            }
        }
    }
}

/// Every row of [`ArchiveTree::flatten`](crate::archive::ArchiveTree::flatten)
/// hands back a path that [`ArchiveTree::subtree`](crate::archive::ArchiveTree::subtree)
/// resolves exactly when the row is a directory, for a well-formed tree.
pub proof fn lemma_flatten_paths_resolve(t: TreeM)
    requires
        tree_wf(t),
    ensures
        rows_resolve(t, flat(t, Seq::empty(), 0)),
{
    lemma_find_sep_at(Seq::<char>::empty(), 0);
    assert(path_parts(Seq::<char>::empty()) =~= Seq::<Seq<char>>::empty());
    lemma_flat_resolves(t, t, Seq::empty(), 0);
}

/// The parts of any path are fit entry names.
proof fn lemma_path_parts_names(s: Seq<char>)
    ensures
        forall|k: int| 0 <= k < path_parts(s).len() ==> entry_name(#[trigger] path_parts(s)[k]),
    decreases s.len(),
{
    lemma_find_sep(s);
    match find_sep(s) {
        Some(i) => {
            lemma_path_parts_names(s.skip(i + 1));
            let head: Seq<Seq<char>> = if i > 0 { seq![s.take(i)] } else { seq![] };
            let ps = path_parts(s);
            assert(ps == head + path_parts(s.skip(i + 1)));
            assert forall|k: int| 0 <= k < ps.len() implies entry_name(#[trigger] ps[k]) by {
                if k < head.len() {
                    assert(ps[k] == s.take(i));
                } else {
                    assert(ps[k] == path_parts(s.skip(i + 1))[k - head.len()]);
                }
            }
        },
        None => {},
    }
}

proof fn lemma_insert_pos_range(t: TreeM, key: Seq<char>)
    ensures
        0 <= insert_pos(t, key) <= t.len(),
    decreases t.len(),
{
    if t.len() > 0 {
        lemma_insert_pos_range(t.drop_first(), key);
    }
}

/// Adding a path keeps a tree well-formed.
proof fn lemma_insert_wf(t: TreeM, parts: Seq<Seq<char>>, is_dir: bool)
    requires
        tree_wf(t),
        forall|k: int| 0 <= k < parts.len() ==> entry_name(#[trigger] parts[k]),
    ensures
        tree_wf(insert_path(t, parts, is_dir)),
    decreases parts.len(),
{
    if parts.len() > 0 {
        let key = lower(parts[0]);
        let rest = parts.drop_first();
        assert forall|k: int| 0 <= k < rest.len() implies entry_name(#[trigger] rest[k]) by {
            assert(rest[k] == parts[k + 1]);
        }
        assert(entry_name(parts[0]));
        lemma_lookup(t, key);
        match lookup(t, key) {
            Some(i) => {
                if parts.len() > 1 {
                    match t[i].1 {
                        NodeM::Dir { name, tree } => {
                            assert(match t[i].1 {
                                NodeM::Dir { tree, .. } => tree_wf(tree),
                                NodeM::File { .. } => true,
                            });
                            lemma_insert_wf(tree, rest, is_dir);
                            let t2 = insert_path(t, parts, is_dir);
                            let nn = NodeM::Dir { name, tree: insert_path(tree, rest, is_dir) };
                            assert(t2 == t.update(i, (t[i].0, nn)));
                            assert(node_name(nn) == node_name(t[i].1));
                            assert forall|k: int| 0 <= k < t2.len() implies match #[trigger] t2[k].1 {
                                NodeM::Dir { tree, .. } => tree_wf(tree),
                                NodeM::File { .. } => true,
                            } by {
                                if k != i {
                                    assert(t2[k] == t[k]);
                                }
                            }
                            assert forall|k: int| 0 <= k < t2.len() implies t2[k].0 == lower(node_name(t2[k].1))
                                && entry_name(node_name(t2[k].1)) by {
                                if k != i {
                                    assert(t2[k] == t[k]);
                                }
                            }
                        },
                        NodeM::File { .. } => {},
                    }
                }
            },
            None => {
                let node = if parts.len() == 1 {
                    if is_dir {
                        NodeM::Dir { name: parts[0], tree: Seq::empty() }
                    } else {
                        NodeM::File { name: parts[0] }
                    }
                } else {
                    NodeM::Dir { name: parts[0], tree: insert_path(Seq::empty(), rest, is_dir) }
                };
                if parts.len() > 1 {
                    assert(tree_wf(Seq::<(Seq<char>, NodeM)>::empty()));
                    lemma_insert_wf(Seq::empty(), rest, is_dir);
                } else {
                    assert(tree_wf(Seq::<(Seq<char>, NodeM)>::empty()));
                }
                let pos = insert_pos(t, key);
                lemma_insert_pos_range(t, key);
                let t2 = t.insert(pos, (key, node));
                assert(t2 == insert_path(t, parts, is_dir));
                assert forall|k: int| 0 <= k < t2.len() implies t2[k] == (if k < pos { t[k] } else if k == pos {
                    (key, node)
                } else {
                    t[k - 1]
                }) by {}
                assert forall|a: int, b: int| 0 <= a < b < t2.len() implies t2[a].0 != t2[b].0 by {
                    if a != pos && b != pos {
                        let a0 = if a < pos { a } else { a - 1 };
                        let b0 = if b < pos { b } else { b - 1 };
                        assert(t2[a] == t[a0] && t2[b] == t[b0]);
                        assert(a0 < b0);
                    }
                }
                assert forall|k: int| 0 <= k < t2.len() implies match #[trigger] t2[k].1 {
                    NodeM::Dir { tree, .. } => tree_wf(tree),
                    NodeM::File { .. } => true,
                } by {
                    if k < pos {
                        assert(t2[k] == t[k]);
                    } else if k > pos {
                        assert(t2[k] == t[k - 1]);
                    }
                }
                assert forall|k: int| 0 <= k < t2.len() implies t2[k].0 == lower(node_name(t2[k].1))
                    && entry_name(node_name(t2[k].1)) by {
                    if k < pos {
                        assert(t2[k] == t[k]);
                    } else if k > pos {
                        assert(t2[k] == t[k - 1]);
                    }
                }
            },
        }
    }
}

/// The tree a listing builds is well-formed.
proof fn lemma_build_wf(listing: Seq<(Seq<char>, bool)>)
    ensures
        tree_wf(build(listing)),
    decreases listing.len(),
{
    if listing.len() > 0 {
        lemma_build_wf(listing.drop_last());
        lemma_path_parts_names(listing.last().0);
        lemma_insert_wf(build(listing.drop_last()), path_parts(listing.last().0), listing.last().1);
    } else {
        assert(tree_wf(Seq::<(Seq<char>, NodeM)>::empty()));
    }
}

/// For the tree of any archive listing, every row the picker shows hands back
/// a path that resolves to a level exactly when the row is a directory.
pub proof fn lemma_listing_paths_resolve(listing: Seq<(Seq<char>, bool)>)
    ensures
        tree_wf(build(listing)),
        rows_resolve(build(listing), flat(build(listing), Seq::empty(), 0)),
{
    lemma_build_wf(listing);
    lemma_flatten_paths_resolve(build(listing));
}

/// A wrapper's name, a separator and a path below it split into the name and
/// the parts below.
proof fn lemma_wrapped_parts(name: Seq<char>, q: Seq<char>)
    requires
        entry_name(name),
    ensures
        path_parts(name + seq!['/'] + q) == seq![name] + path_parts(q),
{
    lemma_find_sep_at(name, name.len() as int);
    lemma_path_parts_join(name, '/', q);
}

/// Following a well-formed level's entry `i` by its name, then `ps`.
proof fn lemma_descend_through(t: TreeM, i: int, ps: Seq<Seq<char>>)
    requires
        tree_wf(t),
        0 <= i < t.len(),
        t[i].1 is Dir,
    ensures
        descend(t, seq![node_name(t[i].1)] + ps) == descend(t[i].1->tree, ps),
{
    let name = node_name(t[i].1);
    let all = seq![name] + ps;
    assert(all[0] == name);
    assert(all.drop_first() =~= ps);
    assert(forall|j: int| 0 <= j < i ==> t[j].0 != t[i].0);
    lemma_lookup_at(t, lower(name), i);
}

/// Where the simple installer's base resolves: a found base names a level of
/// the tree that is a valid mod root; it is empty exactly when the top level
/// already is one and otherwise ends with `/`; and no base is found for a tree
/// whose top level is valid.
pub proof fn lemma_simple_base_resolves(t: TreeM, r: &LayoutRules)
    requires
        tree_wf(t),
    ensures
        match simple_base(t, r) {
            Some(p) => root_valid(t, p, r) && (p.len() == 0 <==> data_valid(t, r)) && (p.len() == 0
                || p.last() == '/'),
            None => !data_valid(t, r),
        },
    decreases t,
{
    if data_valid(t, r) {
        lemma_find_sep_at(Seq::<char>::empty(), 0);
        assert(path_parts(Seq::<char>::empty()) =~= Seq::<Seq<char>>::empty());
    } else {
        let k: int = if single_subdir(t) {
            0
        } else if exists|k: int| data_text_at(t, k) {
            choose|k: int| data_text_at(t, k)
        } else {
            -1
        };
        if k >= 0 {
            assert(0 <= k < t.len() && t[k].1 is Dir);
            let name = node_name(t[k].1);
            let sub = t[k].1->tree;
            assert(tree_wf(sub)) by {
                assert(match t[k].1 {
                    NodeM::Dir { tree, .. } => tree_wf(tree),
                    NodeM::File { .. } => true,
                });
            }
            assert(entry_name(name));
            lemma_simple_base_resolves(sub, r);
            match simple_base(sub, r) {
                Some(q) => {
                    assert(simple_base(t, r) == Some(name + seq!['/'] + q));
                    lemma_wrapped_parts(name, q);
                    lemma_descend_through(t, k, path_parts(q));
                    let p = name + seq!['/'] + q;
                    if q.len() > 0 {
                        assert(p.last() == q.last());
                    } else {
                        assert(p.last() == '/');
                    }
                },
                None => {},
            }
        }
    }
}

/// A tree built from an archive listing is well-formed: at every depth each
/// key is its entry's name lowercased, no two keys of a level are equal (so
/// spellings that differ only in ASCII case share one entry), and names are
/// non-empty path components.
pub proof fn lemma_from_entries_wf(listing: Seq<(Seq<char>, bool)>)
    ensures
        tree_wf(build(listing)),
{
    lemma_build_wf(listing);
}

/// Whether every top-level entry of `t` is still in `u` under the same key,
/// with the same spelling and kind.
pub open spec fn keeps_entries(t: TreeM, u: TreeM) -> bool {
    forall|i: int| 0 <= i < t.len() ==> exists|j: int|
        0 <= j < u.len() && (#[trigger] u[j]).0 == (#[trigger] t[i]).0 && node_name(u[j].1) == node_name(t[i].1)
            && (t[i].1 is Dir <==> u[j].1 is Dir)
}

proof fn lemma_insert_keeps(t: TreeM, parts: Seq<Seq<char>>, is_dir: bool)
    ensures
        keeps_entries(t, insert_path(t, parts, is_dir)),
{
    let u = insert_path(t, parts, is_dir);
    if parts.len() > 0 {
        let key = lower(parts[0]);
        lemma_lookup(t, key);
        match lookup(t, key) {
            Some(k) => {
                assert forall|i: int| 0 <= i < t.len() implies exists|j: int|
                    0 <= j < u.len() && (#[trigger] u[j]).0 == (#[trigger] t[i]).0 && node_name(u[j].1) == node_name(t[i].1)
                        && (t[i].1 is Dir <==> u[j].1 is Dir) by {
                    assert(u.len() == t.len());
                    assert(u[i].0 == t[i].0);
                }
            },
            None => {
                lemma_insert_pos_range(t, key);
                let pos = insert_pos(t, key);
                assert forall|i: int| 0 <= i < t.len() implies exists|j: int|
                    0 <= j < u.len() && (#[trigger] u[j]).0 == (#[trigger] t[i]).0 && node_name(u[j].1) == node_name(t[i].1)
                        && (t[i].1 is Dir <==> u[j].1 is Dir) by {
                    if i < pos {
                        assert(u[i] == t[i]);
                    } else {
                        assert(u[i + 1] == t[i]);
                    }
                }
            },
        }
    }
}

proof fn lemma_keeps_trans(a: TreeM, b: TreeM, c: TreeM)
    requires
        keeps_entries(a, b),
        keeps_entries(b, c),
    ensures
        keeps_entries(a, c),
{
    assert forall|i: int| 0 <= i < a.len() implies exists|j: int|
        0 <= j < c.len() && (#[trigger] c[j]).0 == (#[trigger] a[i]).0 && node_name(c[j].1) == node_name(a[i].1)
            && (a[i].1 is Dir <==> c[j].1 is Dir) by {
        let m = choose|m: int| 0 <= m < b.len() && (#[trigger] b[m]).0 == a[i].0 && node_name(b[m].1) == node_name(a[i].1)
            && (a[i].1 is Dir <==> b[m].1 is Dir);
        let j = choose|j: int| 0 <= j < c.len() && (#[trigger] c[j]).0 == b[m].0 && node_name(c[j].1) == node_name(b[m].1)
            && (b[m].1 is Dir <==> c[j].1 is Dir);
    }
}

/// The first spelling wins: every top-level entry of the tree built from a
/// listing stays, with its spelling and kind, in the tree built from that
/// listing followed by more entries, whatever case those later entries use.
pub proof fn lemma_first_spelling_wins(a: Seq<(Seq<char>, bool)>, b: Seq<(Seq<char>, bool)>)
    ensures
        keeps_entries(build(a), build(a + b)),
    decreases b.len(),
{
    if b.len() == 0 {
        assert(a + b =~= a);
        let t = build(a);
        assert forall|i: int| 0 <= i < t.len() implies exists|j: int|
            0 <= j < t.len() && (#[trigger] t[j]).0 == (#[trigger] t[i]).0 && node_name(t[j].1) == node_name(t[i].1)
                && (t[i].1 is Dir <==> t[j].1 is Dir) by {
            assert(t[i] == t[i]);
        }
    } else {
        lemma_first_spelling_wins(a, b.drop_last());
        assert((a + b).drop_last() =~= a + b.drop_last());
        assert((a + b).last() == b.last());
        lemma_insert_keeps(build(a + b.drop_last()), path_parts(b.last().0), b.last().1);
        lemma_keeps_trans(build(a), build(a + b.drop_last()), build(a + b));
    }
}

proof fn lemma_image_not_doc(name: Seq<char>)
    ensures
        is_image(name) ==> !is_doc(name),
{
    reveal_strlit("dll");
    reveal_strlit("exe");
    reveal_strlit("asi");
    reveal_strlit("txt");
    reveal_strlit("pdf");
    reveal_strlit("md");
    reveal_strlit("jpg");
    reveal_strlit("jpeg");
    reveal_strlit("png");
    reveal_strlit("bmp");
    let e = ext_of(name);
    if is_image(name) && is_doc(name) {
        let a = choose|a: int| 0 <= a < image_exts().len() && image_exts()[a] == e;
        let b = choose|b: int| 0 <= b < doc_exts().len() && doc_exts()[b] == e;
        assert(image_exts()[a][0] == doc_exts()[b][0] || image_exts()[a].len() != doc_exts()[b].len()
            || image_exts()[a][1] != doc_exts()[b][1] || image_exts()[a][2] != doc_exts()[b][2]);
    }
}

/// What a scan of a level without a game directory has seen: only `Data` and
/// `root` directories, each anchor one of the level's directories, and the
/// root entries the level's non-documentation files.
spec fn scan_facts(t: TreeM, st: ScanM) -> bool {
    &&& forall|i: int| 0 <= i < t.len() && (#[trigger] t[i]).1 is Dir ==> eq_ic(node_name(t[i].1), "data"@)
        || eq_ic(node_name(t[i].1), "root"@)
    &&& st.game is None
    &&& (st.data matches Some(d) ==> exists|i: int| 0 <= i < t.len() && (#[trigger] t[i]).1 is Dir && node_name(t[i].1) == d)
    &&& forall|k: int| 0 <= k < st.entries.len() ==> exists|i: int|
        0 <= i < t.len() && (#[trigger] t[i]).1 is File && node_name(t[i].1) == #[trigger] st.entries[k] && !is_doc(st.entries[k])
    &&& (st.image ==> st.entries.len() > 0)
}

proof fn lemma_scan_facts(t: TreeM)
    ensures
        scan(t, Seq::empty()) matches Some(st) ==> scan_facts(t, st),
    decreases t.len(),
{
    if t.len() > 0 {
        let q = t.drop_last();
        lemma_scan_facts(q);
        let e = t.last();
        if let Some(st) = scan(t, Seq::empty()) {
            let ps = scan(q, Seq::empty())->0;
            assert(forall|i: int| 0 <= i < q.len() ==> q[i] == t[i]);
            assert(t[t.len() - 1] == e);
            match e.1 {
                NodeM::File { name } => {
                    lemma_image_not_doc(name);
                    assert forall|k: int| 0 <= k < st.entries.len() implies exists|i: int|
                        0 <= i < t.len() && (#[trigger] t[i]).1 is File && node_name(t[i].1) == #[trigger] st.entries[k]
                            && !is_doc(st.entries[k]) by {
                        if k < ps.entries.len() {
                            assert(st.entries[k] == ps.entries[k]);
                            let i = choose|i: int| 0 <= i < q.len() && (#[trigger] q[i]).1 is File
                                && node_name(q[i].1) == ps.entries[k] && !is_doc(ps.entries[k]);
                        } else {
                            assert(st.entries[k] == name);
                            assert(t[t.len() - 1] == e);
                        }
                    }
                },
                NodeM::Dir { .. } => {
                    assert(st.entries == ps.entries);
                },
            }
        }
    }
}

/// What a split of `t` promises: no top-level directory but `Data` and `root`
/// (in any case); a `Data` prefix names a valid mod root; a split without one
/// only where the simple installer finds no base; every root entry a
/// top-level file that is not documentation; and a `root` directory or root
/// entries to install.
pub open spec fn split_agrees(t: TreeM, r: &LayoutRules, s: (Option<Seq<char>>, Option<Seq<char>>, Seq<Seq<char>>)) -> bool {
    &&& forall|i: int| 0 <= i < t.len() && (#[trigger] t[i]).1 is Dir ==> eq_ic(node_name(t[i].1), "data"@)
        || eq_ic(node_name(t[i].1), "root"@)
    &&& (s.0 matches Some(p) ==> root_valid(t, p, r))
    &&& (s.0 is None ==> simple_base(t, r) is None)
    &&& forall|k: int| 0 <= k < s.2.len() ==> top_file(t, #[trigger] s.2[k]) && !is_doc(s.2[k])
    &&& (s.1 is Some || s.2.len() > 0)
}

/// Whether `n` is the name of a top-level file of `t`.
pub open spec fn top_file(t: TreeM, n: Seq<char>) -> bool {
    exists|i: int| 0 <= i < t.len() && (#[trigger] t[i]).1 is File && node_name(t[i].1) == n
}

/// The Root Builder split agrees with the simple installer, for a layout
/// without a game directory (every Bethesda game): see [`split_agrees`].
pub proof fn lemma_root_split_agrees(t: TreeM, r: &LayoutRules)
    requires
        tree_wf(t),
        game_dir_of(r.data_dir@).len() == 0,
    ensures
        match root_split(t, r) {
            Some(s) => split_agrees(t, r, s),
            None => true,
        },
{
    let gd = game_dir_of(r.data_dir@);
    assert(gd =~= Seq::<char>::empty());
    lemma_scan_facts(t);
    if let Some(s) = root_split(t, r) {
        assert(scan(t, gd) is Some);
        let st = scan(t, gd)->0;
        assert(scan_facts(t, st));
        assert(st.game is None);
        if st.data is None {
            assert(s == (None::<Seq<char>>, st.root, st.entries));
        }
        if let Some(d) = st.data {
            let j = choose|j: int| 0 <= j < t.len() && (#[trigger] t[j]).1 is Dir && node_name(t[j].1) == d;
            assert(t[j].0 == lower(d));
            lemma_lookup(t, lower(d));
            let i = lookup(t, lower(d))->0;
            assert(i == j) by {
                if i != j {
                    assert(t[i].0 == t[j].0);
                    if i < j {} else {}
                }
            }
            let sub = t[j].1->tree;
            assert(tree_wf(sub)) by {
                assert(match t[j].1 {
                    NodeM::Dir { tree, .. } => tree_wf(tree),
                    NodeM::File { .. } => true,
                });
            }
            assert(entry_name(d));
            lemma_simple_base_resolves(sub, r);
            let inner = simple_base(sub, r)->0;
            lemma_wrapped_parts(d, inner);
            lemma_descend_through(t, j, path_parts(inner));
            assert(s == (Some(d + seq!['/'] + inner), st.root, st.entries));
            assert(root_valid(t, d + seq!['/'] + inner, r));
        }
        assert(forall|i: int| 0 <= i < t.len() && (#[trigger] t[i]).1 is Dir ==> eq_ic(node_name(t[i].1), "data"@)
            || eq_ic(node_name(t[i].1), "root"@));
        assert(s.0 matches Some(p) ==> root_valid(t, p, r));
        assert(s.0 is None ==> simple_base(t, r) is None);
        assert(s.2 == st.entries);
        assert forall|k: int| 0 <= k < s.2.len() implies top_file(t, #[trigger] s.2[k]) && !is_doc(s.2[k]) by {
            assert(s.2[k] == st.entries[k]);
            let i = choose|i: int| 0 <= i < t.len() && (#[trigger] t[i]).1 is File && node_name(t[i].1) == st.entries[k]
                && !is_doc(st.entries[k]);
        }
        assert(s.1 is Some || s.2.len() > 0);
        assert(split_agrees(t, r, s));
    }
}

} // verus!
