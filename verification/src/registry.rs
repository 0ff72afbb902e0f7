//! The instance registry `instances.ini`: the known portable instance roots,
//! most recently used first, and which instance was opened last.

use vstd::prelude::*;

use crate::ini::{key_value, kv_text, lemma_kv_text, plain_key};
use crate::modlist::Instance;
use crate::paths::path_join;
use crate::text::{
    chars_of, eq_str, lines, lines_vec, push_char, push_str, split_once, split_once_vec, string_of,
    trim, trim_vec,
};

verus! {

/// A persistable reference to an instance.
#[derive(Debug, Clone, PartialEq, Eq)]
pub enum InstanceRef {
    /// The central instance for a game id.
    Global(String),
    /// A portable instance at an explicit root.
    Portable(String),
}

/// A reference as `(portable, text)`: the game id or the root.
pub type RefM = (bool, Seq<char>);

impl InstanceRef {
    pub open spec fn model(&self) -> RefM {
        match self {
            InstanceRef::Global(id) => (false, id@),
            InstanceRef::Portable(root) => (true, root@),
        }
    }
}

/// The persisted registry; `portables` is most recently used first.
#[derive(Debug, Clone, PartialEq, Eq)]
pub struct Registry {
    pub portables: Vec<String>,
    pub last: Option<InstanceRef>,
}

/// A registry as `(portables, last)`.
pub type RegM = (Seq<Seq<char>>, Option<RefM>);

impl Registry {
    pub open spec fn model(&self) -> RegM {
        (
            crate::meta::strs_view(self.portables@),
            match self.last {
                Some(r) => Some(r.model()),
                None => None,
            },
        )
    }
}

impl Default for Registry {
    /// No portables known, nothing opened.
    fn default() -> (r: Registry)
        ensures
            r.model() == (Seq::<Seq<char>>::empty(), None::<RefM>),
    {
        let r = Registry { portables: Vec::new(), last: None };
        assert(crate::meta::strs_view(r.portables@) =~= Seq::<Seq<char>>::empty());
        r
    }
}

/// The on-disk token of a reference: `global:<id>` or `portable:<path>`.
pub open spec fn token_of(r: RefM) -> Seq<char> {
    (if r.0 { "portable:"@ } else { "global:"@ }) + r.1
}

/// The reference a token names: the tag before the first `:` (trimmed) and a
/// non-empty trimmed rest.
pub open spec fn parse_ref(token: Seq<char>) -> Option<RefM> {
    match split_once(token, ':') {
        Some((tag, rest0)) => {
            let rest = trim(rest0);
            if rest.len() == 0 {
                None
            } else if trim(tag) == "global"@ {
                Some((false, rest))
            } else if trim(tag) == "portable"@ {
                Some((true, rest))
            } else {
                None
            }
        },
        None => None,
    }
}

/// What the registry lines set, in order: a non-empty `portable=` root not yet
/// known is appended; `last=` replaces the last reference (an unknown tag
/// clears it).
pub open spec fn reg_fold(ls: Seq<Seq<char>>) -> RegM
    decreases ls.len(),
{
    if ls.len() == 0 {
        (Seq::empty(), None)
    } else {
        let (ps, last) = reg_fold(ls.drop_last());
        let line = trim(ls.last());
        if line.len() == 0 || line[0] == '[' || line[0] == '#' {
            (ps, last)
        } else {
            match key_value(line) {
                Some((k, v0)) => {
                    let v = trim(v0);
                    if k == "portable"@ && v.len() > 0 {
                        (if ps.contains(v) { ps } else { ps.push(v) }, last)
                    } else if k == "last"@ {
                        (ps, parse_ref(v))
                    } else {
                        (ps, last)
                    }
                },
                None => (ps, last),
            }
        }
    }
}

/// `portable=<root>` lines.
pub open spec fn portable_lines(ps: Seq<Seq<char>>) -> Seq<char>
    decreases ps.len(),
{
    if ps.len() == 0 {
        Seq::empty()
    } else {
        portable_lines(ps.drop_last()) + kv_text("portable"@, ps.last())
    }
}

/// The `last=` line, if any.
pub open spec fn last_line(l: Option<RefM>) -> Seq<char> {
    match l {
        Some(l) => kv_text("last"@, token_of(l)),
        None => Seq::empty(),
    }
}

/// The registry text.
pub open spec fn reg_text(r: RegM) -> Seq<char> {
    "[instances]\n"@ + last_line(r.1) + portable_lines(r.0)
}

fn push_kv(out: &mut String, k: &str, v: &str)
    ensures
        final(out)@ == old(out)@ + kv_text(k@, v@),
{
    push_str(out, k);
    push_char(out, '=');
    push_str(out, v);
    push_char(out, '\n');
    assert(out@ =~= old(out)@ + kv_text(k@, v@));
}

fn word(v: &[char], s: &str) -> (b: bool)
    ensures
        b == (v@ == s@),
{
    let w = chars_of(s);
    crate::text::eq_chars(v, &w)
}

impl InstanceRef {
    /// The instance this reference names, with global instances under
    /// `data_home`.
    pub fn instance(&self, data_home: &str) -> (i: Instance)
        ensures
            i.root@ == match self {
                InstanceRef::Global(id) => path_join(path_join(data_home@, "eidos"@), id@),
                InstanceRef::Portable(root) => root@,
            },
    {
        match self {
            InstanceRef::Global(id) => Instance::global(data_home, id.as_str()),
            InstanceRef::Portable(root) => Instance::portable(root.clone()),
        }
    }

    /// The on-disk token.
    pub fn to_token(&self) -> (s: String)
        ensures
            s@ == token_of(self.model()),
    {
        match self {
            InstanceRef::Global(id) => {
                let mut s = "global:".to_owned();
                push_str(&mut s, id.as_str());
                s
            },
            InstanceRef::Portable(root) => {
                let mut s = "portable:".to_owned();
                push_str(&mut s, root.as_str());
                s
            },
        }
    }

    /// Parse a token.
    pub fn parse(token: &str) -> (r: Option<InstanceRef>)
        ensures
            match r {
                Some(x) => parse_ref(token@) == Some(x.model()),
                None => parse_ref(token@) is None,
            },
    {
        let v = chars_of(token);
        match split_once_vec(&v, ':') {
            Some((tag, rest0)) => {
                let rest = trim_vec(&rest0);
                if rest.len() == 0 {
                    return None;
                }
                let t = trim_vec(&tag);
                if word(&t, "global") {
                    Some(InstanceRef::Global(string_of(&rest)))
                } else if word(&t, "portable") {
                    Some(InstanceRef::Portable(string_of(&rest)))
                } else {
                    None
                }
            },
            None => None,
        }
    }
}

fn has_str(v: &Vec<String>, s: &[char]) -> (b: bool)
    ensures
        b == crate::meta::strs_view(v@).contains(s@),
{
    let ghost m = crate::meta::strs_view(v@);
    let mut i: usize = 0;
    while i < v.len()
        invariant
            i <= v@.len(),
            m == crate::meta::strs_view(v@),
            forall|k: int| 0 <= k < i ==> m[k] != s@,
        decreases v.len() - i,
    {
        let c = chars_of(v[i].as_str());
        if crate::text::eq_chars(&c, s) {
            assert(m[i as int] == s@);
            return true;
        }
        i = i + 1;
    }
    false
}

/// `v` without the entries equal to `x`.
pub open spec fn without(v: Seq<Seq<char>>, x: Seq<char>) -> Seq<Seq<char>>
    decreases v.len(),
{
    if v.len() == 0 {
        Seq::empty()
    } else {
        let p = without(v.drop_last(), x);
        if v.last() == x { p } else { p.push(v.last()) }
    }
}

fn without_exec(v: &Vec<String>, x: &str) -> (r: Vec<String>)
    ensures
        crate::meta::strs_view(r@) == without(crate::meta::strs_view(v@), x@),
{
    let ghost m = crate::meta::strs_view(v@);
    let mut out: Vec<String> = Vec::new();
    let mut i: usize = 0;
    assert(crate::meta::strs_view(out@) =~= Seq::<Seq<char>>::empty());
    while i < v.len()
        invariant
            i <= v@.len(),
            m == crate::meta::strs_view(v@),
            crate::meta::strs_view(out@) == without(m.take(i as int), x@),
        decreases v.len() - i,
    {
        assert(m.take(i + 1).drop_last() =~= m.take(i as int));
        assert(m.take(i + 1).last() == v@[i as int]@);
        if !eq_str(v[i].as_str(), x) {
            let ghost before = crate::meta::strs_view(out@);
            let c = v[i].clone();
            out.push(c);
            assert(crate::meta::strs_view(out@) =~= before.push(c@));
        }
        i = i + 1;
    }
    assert(m.take(i as int) =~= m);
    out
}

impl Registry {
    /// Parse a registry text; unknown keys and junk are ignored.
    pub fn parse(text: &str) -> (r: Registry)
        ensures
            r.model() == reg_fold(lines(text@)),
    {
        let tv = chars_of(text);
        let ls = lines_vec(&tv);
        let ghost lm = lines(text@);
        let mut reg = Registry::default();
        let mut i: usize = 0;
        while i < ls.len()
            invariant
                i <= ls@.len(),
                ls@.len() == lm.len(),
                forall|k: int| 0 <= k < ls@.len() ==> (#[trigger] ls@[k])@ == lm[k],
                reg.model() == reg_fold(lm.take(i as int)),
            decreases ls.len() - i,
        {
            assert(lm.take(i + 1).drop_last() =~= lm.take(i as int));
            assert(lm.take(i + 1).last() == ls@[i as int]@);
            let line = trim_vec(&ls[i]);
            if !(line.len() == 0 || line[0] == '[' || line[0] == '#') {
                match crate::ini::key_value_exec(&line) {
                    Some((k, v0)) => {
                        let v = trim_vec(&v0);
                        if word(&k, "portable") && v.len() > 0 {
                            if !has_str(&reg.portables, &v) {
                                let ghost before = crate::meta::strs_view(reg.portables@);
                                let s = string_of(&v);
                                reg.portables.push(s);
                                assert(crate::meta::strs_view(reg.portables@) =~= before.push(s@));
                            }
                        } else if word(&k, "last") {
                            let s = string_of(&v);
                            reg.last = InstanceRef::parse(s.as_str());
                        }
                    },
                    None => {},
                }
            }
            i = i + 1;
        }
        assert(lm.take(i as int) =~= lm);
        reg
    }

    /// The registry text.
    pub fn to_ini(&self) -> (s: String)
        ensures
            s@ == reg_text(self.model()),
    {
        let mut out = "[instances]\n".to_owned();
        match &self.last {
            Some(l) => {
                push_kv(&mut out, "last", l.to_token().as_str());
            },
            None => {},
        }
        let ghost base = out@;
        let ghost ps = crate::meta::strs_view(self.portables@);
        let mut i: usize = 0;
        assert(base + portable_lines(ps.take(0)) =~= base);
        while i < self.portables.len()
            invariant
                i <= self.portables@.len(),
                ps == crate::meta::strs_view(self.portables@),
                out@ == base + portable_lines(ps.take(i as int)),
            decreases self.portables.len() - i,
        {
            assert(ps.take(i + 1).drop_last() =~= ps.take(i as int));
            assert(ps.take(i + 1).last() == self.portables@[i as int]@);
            push_kv(&mut out, "portable", self.portables[i].as_str());
            assert(out@ =~= base + portable_lines(ps.take(i + 1)));
            i = i + 1;
        }
        assert(ps.take(i as int) =~= ps);
        assert(out@ =~= reg_text(self.model()));
        out
    }

    /// Record a portable root, moving it to the front.
    pub fn remember_portable(&mut self, root: &str)
        ensures
            final(self).model() == (seq![root@] + without(old(self).model().0, root@), old(self).model().1),
    {
        let rest = without_exec(&self.portables, root);
        let mut ps: Vec<String> = Vec::new();
        ps.push(root.to_owned());
        let mut rest = rest;
        let ghost rv = crate::meta::strs_view(rest@);
        ps.append(&mut rest);
        assert(crate::meta::strs_view(ps@) =~= seq![root@] + rv);
        self.portables = ps;
    }

    /// Drop a portable root; a last reference to it is cleared too.
    pub fn forget_portable(&mut self, root: &str)
        ensures
            final(self).model() == (without(old(self).model().0, root@), if old(self).model().1 == Some((true, root@)) {
                None::<RefM>
            } else {
                old(self).model().1
            }),
    {
        self.portables = without_exec(&self.portables, root);
        let clear = match &self.last {
            Some(InstanceRef::Portable(p)) => eq_str(p.as_str(), root),
            _ => false,
        };
        if clear {
            self.last = None;
        }
    }

    /// Record the instance just opened; a portable one is remembered too.
    pub fn set_last(&mut self, r: InstanceRef)
        ensures
            final(self).model() == (if r.model().0 {
                seq![r.model().1] + without(old(self).model().0, r.model().1)
            } else {
                old(self).model().0
            }, Some(r.model())),
    {
        match &r {
            InstanceRef::Portable(root) => {
                let root = root.clone();
                self.remember_portable(root.as_str());
            },
            InstanceRef::Global(_) => {},
        }
        self.last = Some(r);
    }
}

/// The candidate instance roots for a game, most preferred first: the last
/// instance when it belongs to the game, then the known portable roots of
/// the game in order, then the global path; each root once.
pub open spec fn candidates_spec(r: RegM, data_home: Seq<char>, game_id: Seq<char>, last_game: Option<Seq<char>>, games: Seq<Option<Seq<char>>>) -> Seq<Seq<char>> {
    let first: Seq<Seq<char>> = match r.1 {
        Some(l) => {
            let root = if l.0 { l.1 } else { path_join(path_join(data_home, "eidos"@), l.1) };
            let ok = if l.0 { last_game == Some(game_id) } else { l.1 == game_id };
            if ok { seq![root] } else { Seq::empty() }
        },
        None => Seq::empty(),
    };
    add_unique(add_roots(first, r.0, games, game_id), path_join(path_join(data_home, "eidos"@), game_id))
}

/// `x` appended unless already present.
pub open spec fn add_unique(v: Seq<Seq<char>>, x: Seq<char>) -> Seq<Seq<char>> {
    if v.contains(x) { v } else { v.push(x) }
}

/// The portable roots whose manifest names the game, each appended once.
pub open spec fn add_roots(v: Seq<Seq<char>>, roots: Seq<Seq<char>>, games: Seq<Option<Seq<char>>>, game_id: Seq<char>) -> Seq<Seq<char>>
    decreases roots.len(),
{
    if roots.len() == 0 {
        v
    } else {
        let p = add_roots(v, roots.drop_last(), games, game_id);
        let k = roots.len() - 1;
        if k < games.len() && games[k] == Some(game_id) { add_unique(p, roots.last()) } else { p }
    }
}

fn push_unique(out: &mut Vec<Instance>, inst: Instance)
    ensures
        crate::meta::strs_view(roots_of(final(out)@)) == add_unique(crate::meta::strs_view(roots_of(old(out)@)), inst.root@),
{
    let ghost before = crate::meta::strs_view(roots_of(out@));
    let mut i: usize = 0;
    while i < out.len()
        invariant
            i <= out@.len(),
            before == crate::meta::strs_view(roots_of(out@)),
            forall|k: int| 0 <= k < i ==> before[k] != inst.root@,
        decreases out.len() - i,
    {
        if eq_str(out[i].root.as_str(), inst.root.as_str()) {
            assert(before[i as int] == inst.root@);
            return;
        }
        i = i + 1;
    }
    let ghost r = inst.root@;
    out.push(inst);
    assert(crate::meta::strs_view(roots_of(out@)) =~= before.push(r));
}

/// The roots of a list of instances.
pub open spec fn roots_of(v: Seq<Instance>) -> Seq<String> {
    v.map_values(|i: Instance| i.root)
}

impl Registry {
    /// Every known instance of `game_id` worth trying, most preferred first.
    /// `last_game` is the game the last instance's manifest names (when it is
    /// portable) and `games[i]` the game the `i`-th portable root's manifest
    /// names; `None` where no manifest could be read.
    pub fn candidates_for(&self, data_home: &str, game_id: &str, last_game: Option<&str>, games: &[Option<String>]) -> (r: Vec<Instance>)
        ensures
            crate::meta::strs_view(roots_of(r@)) == candidates_spec(self.model(), data_home@, game_id@, match last_game {
                Some(g) => Some(g@),
                None => None,
            }, games@.map_values(|g: Option<String>| match g {
                Some(s) => Some(s@),
                None => None,
            })),
    {
        let ghost gm = games@.map_values(|g: Option<String>| match g {
            Some(s) => Some(s@),
            None => None::<Seq<char>>,
        });
        let mut out: Vec<Instance> = Vec::new();
        assert(crate::meta::strs_view(roots_of(out@)) =~= Seq::<Seq<char>>::empty());
        match &self.last {
            Some(l) => {
                let ok = match l {
                    InstanceRef::Global(id) => eq_str(id.as_str(), game_id),
                    InstanceRef::Portable(_) => match last_game {
                        Some(g) => eq_str(g, game_id),
                        None => false,
                    },
                };
                if ok {
                    let inst = l.instance(data_home);
                    let ghost r = inst.root@;
                    out.push(inst);
                    assert(crate::meta::strs_view(roots_of(out@)) =~= seq![r]);
                }
            },
            None => {},
        }
        let ghost first = crate::meta::strs_view(roots_of(out@));
        let ghost ps = crate::meta::strs_view(self.portables@);
        let mut i: usize = 0;
        while i < self.portables.len()
            invariant
                i <= self.portables@.len(),
                ps == crate::meta::strs_view(self.portables@),
                gm == games@.map_values(|g: Option<String>| match g {
                    Some(s) => Some(s@),
                    None => None::<Seq<char>>,
                }),
                crate::meta::strs_view(roots_of(out@)) == add_roots(first, ps.take(i as int), gm, game_id@),
            decreases self.portables.len() - i,
        {
            assert(ps.take(i + 1).drop_last() =~= ps.take(i as int));
            assert(ps.take(i + 1).last() == self.portables@[i as int]@);
            let matches = i < games.len() && match &games[i] {
                Some(g) => eq_str(g.as_str(), game_id),
                None => false,
            };
            if matches {
                push_unique(&mut out, Instance::portable(self.portables[i].clone()));
            }
            i = i + 1;
        }
        assert(ps.take(i as int) =~= ps);
        push_unique(&mut out, Instance::global(data_home, game_id));
        out
    }
}

/// A value a registry line carries unchanged: not empty, trimmed, without a
/// line break.
pub open spec fn reg_value(v: Seq<char>) -> bool {
    v.len() > 0 && trim(v) == v && forall|j: int| 0 <= j < v.len() ==> v[j] != '\n'
}

proof fn lemma_portable_lines(ps: Seq<Seq<char>>)
    requires
        forall|i: int| 0 <= i < ps.len() ==> reg_value(#[trigger] ps[i]),
    ensures
        lines(portable_lines(ps)) == Seq::new(ps.len(), |i: int| "portable"@ + seq!['='] + ps[i]),
        portable_lines(ps).len() == 0 || portable_lines(ps).last() == '\n',
    decreases ps.len(),
{
    if ps.len() > 0 {
        reveal_strlit("portable");
        lemma_portable_lines(ps.drop_last());
        assert(reg_value(ps[ps.len() - 1]));
        assert(plain_key("portable"@));
        lemma_kv_text("portable"@, ps.last());
        crate::text::lemma_lines_append(portable_lines(ps.drop_last()), kv_text("portable"@, ps.last()));
        assert(lines(portable_lines(ps)) =~= Seq::new(ps.len(), |i: int| "portable"@ + seq!['='] + ps[i]));
    }
}

proof fn lemma_portable_line(v: Seq<char>)
    requires
        reg_value(v),
    ensures
        ({
            let l = "portable"@ + seq!['='] + v;
            &&& trim(l) == l
            &&& l.len() > 0 && l[0] == 'p'
            &&& key_value(l) == Some(("portable"@, v))
        }),
{
    reveal_strlit("portable");
    assert(plain_key("portable"@));
    lemma_kv_text("portable"@, v);
}

proof fn lemma_fold_portables(head: Seq<Seq<char>>, ps: Seq<Seq<char>>, last: Option<RefM>, k: int)
    requires
        reg_fold(head) == (Seq::<Seq<char>>::empty(), last),
        forall|i: int| 0 <= i < ps.len() ==> reg_value(#[trigger] ps[i]),
        forall|i: int, j: int| 0 <= i < j < ps.len() ==> ps[i] != ps[j],
        0 <= k <= ps.len(),
    ensures
        reg_fold(head + Seq::new(k as nat, |i: int| "portable"@ + seq!['='] + ps[i])) == (ps.take(k), last),
    decreases k,
{
    let pl = Seq::new(k as nat, |i: int| "portable"@ + seq!['='] + ps[i]);
    if k == 0 {
        assert(head + pl =~= head);
        assert(ps.take(0) =~= Seq::<Seq<char>>::empty());
    } else {
        lemma_fold_portables(head, ps, last, k - 1);
        let prev = Seq::new((k - 1) as nat, |i: int| "portable"@ + seq!['='] + ps[i]);
        assert((head + pl).drop_last() =~= head + prev);
        assert((head + pl).last() == "portable"@ + seq!['='] + ps[k - 1]);
        assert(reg_value(ps[k - 1]));
        lemma_portable_line(ps[k - 1]);
        assert(!ps.take(k - 1).contains(ps[k - 1])) by {
            if ps.take(k - 1).contains(ps[k - 1]) {
                let t = choose|t: int| 0 <= t < k - 1 && #[trigger] ps.take(k - 1)[t] == ps[k - 1];
                assert(ps[t] == ps[k - 1]);
            }
        }
        assert(ps.take(k - 1).push(ps[k - 1]) =~= ps.take(k));
    }
}

proof fn lemma_token_parse(l: RefM)
    requires
        reg_value(l.1),
    ensures
        parse_ref(token_of(l)) == Some(l),
        trim(token_of(l)) == token_of(l),
        forall|j: int| 0 <= j < token_of(l).len() ==> token_of(l)[j] != '\n',
{
    reveal_strlit("portable:");
    reveal_strlit("global:");
    reveal_strlit("portable");
    reveal_strlit("global");
    let t = token_of(l);
    let tag: Seq<char> = if l.0 { "portable"@ } else { "global"@ };
    assert(t =~= tag + seq![':'] + l.1);
    crate::text::lemma_find_char_at(t, ':', tag.len() as int);
    assert(t.take(tag.len() as int) =~= tag);
    assert(t.skip(tag.len() as int + 1) =~= l.1);
    crate::text::lemma_trim_fixed(tag);
    crate::text::lemma_trim_end_is_prefix(crate::text::trim_start(l.1));
    assert(t.last() == l.1.last());
    crate::text::lemma_trim_fixed(t);
    assert forall|j: int| 0 <= j < t.len() implies t[j] != '\n' by {
        if j > tag.len() {
            assert(t[j] == l.1[j - tag.len() - 1]);
        }
    }
}

/// A registry written with [`Registry::to_ini`] reads back as itself, when its
/// roots are distinct and, like the last reference's text, fit for a line.
pub proof fn lemma_registry_round_trip(r: RegM)
    requires
        forall|i: int| 0 <= i < r.0.len() ==> reg_value(#[trigger] r.0[i]),
        forall|i: int, j: int| 0 <= i < j < r.0.len() ==> r.0[i] != r.0[j],
        match r.1 {
            Some(l) => reg_value(l.1),
            None => true,
        },
    ensures
        reg_fold(lines(reg_text(r))) == r,
{
    reveal_strlit("[instances]\n");
    reveal_strlit("last");
    let h = seq!['[', 'i', 'n', 's', 't', 'a', 'n', 'c', 'e', 's', ']'];
    let t0 = "[instances]\n"@;
    assert(t0 =~= h + seq!['\n']);
    crate::text::lemma_lines_one(h);
    assert(crate::text::strip_cr(h) == h);
    crate::text::lemma_trim_fixed(h);
    let t1 = t0 + last_line(r.1);
    let head: Seq<Seq<char>> = match r.1 {
        Some(l) => seq![h, "last"@ + seq!['='] + token_of(l)],
        None => seq![h],
    };
    assert(seq![h].drop_last() =~= Seq::<Seq<char>>::empty());
    assert(reg_fold(Seq::<Seq<char>>::empty()) == (Seq::<Seq<char>>::empty(), None::<RefM>));
    assert(seq![h].last() == h);
    assert(trim(h)[0] == '[');
    assert(reg_fold(seq![h]) == (Seq::<Seq<char>>::empty(), None::<RefM>));
    match r.1 {
        Some(l) => {
            lemma_token_parse(l);
            assert(plain_key("last"@));
            lemma_kv_text("last"@, token_of(l));
            crate::text::lemma_lines_append(t0, last_line(r.1));
            assert(lines(t1) =~= head);
            assert(head.drop_last() =~= seq![h]);
            assert(("last"@ + seq!['='] + token_of(l))[0] == 'l');
            reveal_strlit("portable");
            assert("last"@ != "portable"@);
        },
        None => {
            assert(t1 =~= t0);
            assert(lines(t1) =~= head);
        },
    }
    assert(reg_fold(head) == (Seq::<Seq<char>>::empty(), r.1));
    lemma_portable_lines(r.0);
    crate::text::lemma_lines_append(t1, portable_lines(r.0));
    lemma_fold_portables(head, r.0, r.1, r.0.len() as int);
    assert(r.0.take(r.0.len() as int) =~= r.0);
    assert(lines(reg_text(r)) =~= head + Seq::new(r.0.len(), |i: int| "portable"@ + seq!['='] + r.0[i]));
}

/// The registry file under the configuration directory.
pub fn registry_path(config_home: &str) -> (p: String)
    ensures
        p@ == path_join(config_home@, "instances.ini"@),
{
    crate::paths::join(config_home, "instances.ini")
}

} // verus!
