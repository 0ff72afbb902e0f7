//! The instance manifest `<root>/eidos-instance.ini`: which game an instance
//! belongs to, how it is stored, its layout version and its active profile.

use vstd::prelude::*;

use crate::ini::{key_value, kv_text, lemma_kv_lines_cons, lemma_kv_text, plain_key};
use crate::text::{
    chars_of, dec, eq_ic, lemma_lines_cons, lemma_parse_dec, lemma_trim_fixed, lines, lines_vec, lower,
    parse_u32_spec, parse_u32_vec, push_char, push_str, string_of, trim, trim_vec, u64_to_string,
};

verus! {

/// Where an instance is stored.
#[derive(Debug, Clone, Copy, PartialEq, Eq, Structural)]
pub enum InstanceKind {
    /// Centrally, under the data home.
    Global,
    /// In a self-contained folder chosen by the user.
    Portable,
}

/// The current on-disk layout version.
pub const SCHEMA_VERSION: u32 = 1;

/// The instance manifest.
#[derive(Debug, Clone, PartialEq, Eq)]
pub struct Manifest {
    pub schema_version: u32,
    pub game_id: String,
    pub kind: InstanceKind,
    /// The active profile, if one was chosen.
    pub selected_profile: Option<String>,
}

/// A manifest as `(schema, game id, kind, selected profile)`.
pub type ManifestM = (u32, Seq<char>, InstanceKind, Option<Seq<char>>);

impl Manifest {
    pub open spec fn model(&self) -> ManifestM {
        (
            self.schema_version,
            self.game_id@,
            self.kind,
            match self.selected_profile {
                Some(p) => Some(p@),
                None => None,
            },
        )
    }

    /// A fresh manifest at the current schema with no profile chosen.
    pub fn new(game_id: &str, kind: InstanceKind) -> (m: Manifest)
        ensures
            m.model() == (SCHEMA_VERSION, game_id@, kind, None::<Seq<char>>),
    {
        Manifest { schema_version: SCHEMA_VERSION, game_id: game_id.to_owned(), kind, selected_profile: None }
    }
}

/// What the lines of a manifest set, in order: `(schema, game id, kind,
/// profile)`. Blank, `[` and `#` lines and lines without a key are skipped; an
/// unparseable schema version reads as the current one; a `kind` other than
/// `portable` (ignoring ASCII case) is global; an empty profile is ignored.
pub open spec fn manifest_fold(ls: Seq<Seq<char>>) -> (u32, Option<Seq<char>>, InstanceKind, Option<Seq<char>>)
    decreases ls.len(),
{
    if ls.len() == 0 {
        (SCHEMA_VERSION, None, InstanceKind::Global, None)
    } else {
        let (sv, gid, kind, prof) = manifest_fold(ls.drop_last());
        let line = trim(ls.last());
        if line.len() == 0 || line[0] == '[' || line[0] == '#' {
            (sv, gid, kind, prof)
        } else {
            match key_value(line) {
                Some((k, v0)) => {
                    let v = trim(v0);
                    if k == "schema_version"@ {
                        (match parse_u32_spec(v) {
                            Some(n) => n,
                            None => SCHEMA_VERSION,
                        }, gid, kind, prof)
                    } else if k == "game_id"@ {
                        (sv, Some(v), kind, prof)
                    } else if k == "kind"@ {
                        (sv, gid, if eq_ic(v, "portable"@) { InstanceKind::Portable } else { InstanceKind::Global }, prof)
                    } else if k == "selected_profile"@ && v.len() > 0 {
                        (sv, gid, kind, Some(v))
                    } else {
                        (sv, gid, kind, prof)
                    }
                },
                None => (sv, gid, kind, prof),
            }
        }
    }
}

/// The manifest a text gives; `None` without a `game_id`.
pub open spec fn parse_manifest_spec(text: Seq<char>) -> Option<ManifestM> {
    let (sv, gid, kind, prof) = manifest_fold(lines(text));
    match gid {
        Some(g) => Some((sv, g, kind, prof)),
        None => None,
    }
}

/// The text a manifest is written as.
pub open spec fn manifest_text(m: ManifestM) -> Seq<char> {
    "[eidos]\n"@ + kv_text("schema_version"@, dec(m.0 as nat)) + kv_text("game_id"@, m.1)
        + kv_text("kind"@, kind_word(m.2)) + profile_tail(m)
}

/// The profile line of a manifest text, if any.
pub open spec fn profile_tail(m: ManifestM) -> Seq<char> {
    match m.3 {
        Some(p) => kv_text("selected_profile"@, p),
        None => Seq::empty(),
    }
}

/// The kind word of a manifest.
pub open spec fn kind_word(k: InstanceKind) -> Seq<char> {
    if k == InstanceKind::Global { "global"@ } else { "portable"@ }
}

fn push_kv_text(out: &mut String, k: &str, v: &str)
    ensures
        final(out)@ == old(out)@ + kv_text(k@, v@),
{
    push_str(out, k);
    push_char(out, '=');
    push_str(out, v);
    push_char(out, '\n');
    assert(out@ =~= old(out)@ + kv_text(k@, v@));
}

fn word(v: &[char], s: &str) -> (b: bool)
    ensures
        b == (v@ == s@),
{
    let w = chars_of(s);
    crate::text::eq_chars(v, &w)
}

impl Manifest {
    /// Parse a manifest text; `None` if it names no game.
    pub fn parse(text: &str) -> (r: Option<Manifest>)
        ensures
            match r {
                Some(m) => parse_manifest_spec(text@) == Some(m.model()),
                None => parse_manifest_spec(text@) is None,
            },
    {
        let tv = chars_of(text);
        let ls = lines_vec(&tv);
        let ghost lm = lines(text@);
        let mut sv: u32 = SCHEMA_VERSION;
        let mut gid: Option<Vec<char>> = None;
        let mut kind = InstanceKind::Global;
        let mut prof: Option<Vec<char>> = None;
        let mut i: usize = 0;
        while i < ls.len()
            invariant
                i <= ls@.len(),
                ls@.len() == lm.len(),
                forall|k: int| 0 <= k < ls@.len() ==> (#[trigger] ls@[k])@ == lm[k],
                manifest_fold(lm.take(i as int)) == (sv, match gid {
                    Some(g) => Some(g@),
                    None => None::<Seq<char>>,
                }, kind, match prof {
                    Some(p) => Some(p@),
                    None => None::<Seq<char>>,
                }),
            decreases ls.len() - i,
        {
            assert(lm.take(i + 1).drop_last() =~= lm.take(i as int));
            assert(lm.take(i + 1).last() == ls@[i as int]@);
            let line = trim_vec(&ls[i]);
            if !(line.len() == 0 || line[0] == '[' || line[0] == '#') {
                match crate::ini::key_value_exec(&line) {
                    Some((k, v0)) => {
                        let v = trim_vec(&v0);
                        if word(&k, "schema_version") {
                            sv = match parse_u32_vec(&v) {
                                Some(n) => n,
                                None => SCHEMA_VERSION,
                            };
                        } else if word(&k, "game_id") {
                            gid = Some(v);
                        } else if word(&k, "kind") {
                            let p = chars_of("portable");
                            kind = if crate::text::eq_ic_chars(&v, &p) { InstanceKind::Portable } else { InstanceKind::Global };
                        } else if word(&k, "selected_profile") && v.len() > 0 {
                            prof = Some(v);
                        }
                    },
                    None => {},
                }
            }
            i = i + 1;
        }
        assert(lm.take(i as int) =~= lm);
        match gid {
            Some(g) => Some(Manifest {
                schema_version: sv,
                game_id: string_of(&g),
                kind,
                selected_profile: match prof {
                    Some(p) => Some(string_of(&p)),
                    None => None,
                },
            }),
            None => None,
        }
    }

    /// The text the manifest is written as.
    pub fn to_text(&self) -> (s: String)
        ensures
            s@ == manifest_text(self.model()),
            line_value(self.model().1) && (match self.model().3 {
                Some(p) => p.len() > 0 && line_value(p),
                None => true,
            }) ==> parse_manifest_spec(s@) == Some(self.model()),
    {
        proof {
            if line_value(self.model().1) && (match self.model().3 {
                Some(p) => p.len() > 0 && line_value(p),
                None => true,
            }) {
                lemma_manifest_round_trip(self.model());
            }
        }
        let mut out = "[eidos]\n".to_owned();
        let d = u64_to_string(self.schema_version as u64);
        push_kv_text(&mut out, "schema_version", d.as_str());
        push_kv_text(&mut out, "game_id", self.game_id.as_str());
        match self.kind {
            InstanceKind::Global => push_kv_text(&mut out, "kind", "global"),
            InstanceKind::Portable => push_kv_text(&mut out, "kind", "portable"),
        }
        match &self.selected_profile {
            Some(p) => push_kv_text(&mut out, "selected_profile", p.as_str()),
            None => {},
        }
        assert(out@ =~= manifest_text(self.model()));
        out
    }
}

/// A value a manifest line carries unchanged: trimmed, without a line break.
pub open spec fn line_value(v: Seq<char>) -> bool {
    trim(v) == v && forall|j: int| 0 <= j < v.len() ==> v[j] != '\n'
}

proof fn lemma_head_fold(m: ManifestM, h: Seq<char>, d: Seq<char>, w: Seq<char>)
    requires
        h == seq!['[', 'e', 'i', 'd', 'o', 's', ']'],
        d == dec(m.0 as nat),
        parse_u32_spec(d) == Some(m.0),
        trim(d) == d,
        line_value(m.1),
        w == (if m.2 == InstanceKind::Global { "global"@ } else { "portable"@ }),
        trim(w) == w,
        key_value("schema_version"@ + seq!['='] + d) == Some(("schema_version"@, d)),
        key_value("game_id"@ + seq!['='] + m.1) == Some(("game_id"@, m.1)),
        key_value("kind"@ + seq!['='] + w) == Some(("kind"@, w)),
        trim("schema_version"@ + seq!['='] + d) == "schema_version"@ + seq!['='] + d,
        trim("game_id"@ + seq!['='] + m.1) == "game_id"@ + seq!['='] + m.1,
        trim("kind"@ + seq!['='] + w) == "kind"@ + seq!['='] + w,
    ensures
        manifest_fold(seq![h, "schema_version"@ + seq!['='] + d, "game_id"@ + seq!['='] + m.1, "kind"@ + seq!['='] + w])
            == (m.0, Some(m.1), m.2, None::<Seq<char>>),
{
    reveal_strlit("schema_version");
    reveal_strlit("game_id");
    reveal_strlit("kind");
    reveal_strlit("global");
    reveal_strlit("portable");
    reveal_strlit("selected_profile");
    let l1 = "schema_version"@ + seq!['='] + d;
    let l2 = "game_id"@ + seq!['='] + m.1;
    let l3 = "kind"@ + seq!['='] + w;
    let s0 = seq![h];
    let s1 = seq![h, l1];
    let s2 = seq![h, l1, l2];
    let s3 = seq![h, l1, l2, l3];
    assert(s0.drop_last() =~= Seq::<Seq<char>>::empty());
    assert(manifest_fold(Seq::<Seq<char>>::empty()) == (SCHEMA_VERSION, None::<Seq<char>>, InstanceKind::Global, None::<Seq<char>>));
    assert(s1.drop_last() =~= s0);
    assert(s2.drop_last() =~= s1);
    assert(s3.drop_last() =~= s2);
    assert(trim(h) == h) by { lemma_trim_fixed(h); }
    assert(manifest_fold(s0) == (SCHEMA_VERSION, None::<Seq<char>>, InstanceKind::Global, None::<Seq<char>>));
    assert(l1[0] == 's');
    assert(manifest_fold(s1) == (m.0, None::<Seq<char>>, InstanceKind::Global, None::<Seq<char>>));
    assert(l2[0] == 'g');
    assert("game_id"@ != "schema_version"@);
    assert(manifest_fold(s2) == (m.0, Some(m.1), InstanceKind::Global, None::<Seq<char>>));
    assert(l3[0] == 'k');
    assert("kind"@ != "schema_version"@);
    assert("kind"@ != "game_id"@);
    assert(eq_ic(w, "portable"@) == (m.2 == InstanceKind::Portable)) by {
        assert(lower("portable"@) =~= "portable"@);
        if m.2 == InstanceKind::Global {
            assert(lower(w).len() != lower("portable"@).len());
        }
    }
}

proof fn lemma_manifest_lines(m: ManifestM)
    requires
        line_value(m.1),
    ensures
        lines(manifest_text(m)) == seq![
            seq!['[', 'e', 'i', 'd', 'o', 's', ']'],
            "schema_version"@ + seq!['='] + dec(m.0 as nat),
            "game_id"@ + seq!['='] + m.1,
            "kind"@ + seq!['='] + kind_word(m.2),
        ] + lines(profile_tail(m)),
        key_value("schema_version"@ + seq!['='] + dec(m.0 as nat)) == Some(("schema_version"@, dec(m.0 as nat))),
        key_value("game_id"@ + seq!['='] + m.1) == Some(("game_id"@, m.1)),
        key_value("kind"@ + seq!['='] + kind_word(m.2)) == Some(("kind"@, kind_word(m.2))),
        trim("schema_version"@ + seq!['='] + dec(m.0 as nat)) == "schema_version"@ + seq!['='] + dec(m.0 as nat),
        trim("game_id"@ + seq!['='] + m.1) == "game_id"@ + seq!['='] + m.1,
        trim("kind"@ + seq!['='] + kind_word(m.2)) == "kind"@ + seq!['='] + kind_word(m.2),
        parse_u32_spec(dec(m.0 as nat)) == Some(m.0),
        trim(dec(m.0 as nat)) == dec(m.0 as nat),
        trim(kind_word(m.2)) == kind_word(m.2),
{
    reveal_strlit("[eidos]\n");
    reveal_strlit("global");
    reveal_strlit("portable");
    reveal_strlit("schema_version");
    reveal_strlit("game_id");
    reveal_strlit("kind");
    let d = dec(m.0 as nat);
    lemma_parse_dec(m.0 as u64);
    crate::text::lemma_dec_digits(m.0 as nat);
    assert forall|j: int| 0 <= j < d.len() implies d[j] != '\n' by {
        assert(crate::text::is_digit(d[j]));
    }
    let w = kind_word(m.2);
    lemma_trim_fixed(w);
    let k1 = "schema_version"@;
    let k2 = "game_id"@;
    let k3 = "kind"@;
    assert(plain_key(k1));
    assert(plain_key(k2));
    assert(plain_key(k3));
    let h = seq!['[', 'e', 'i', 'd', 'o', 's', ']'];
    let t0 = "[eidos]\n"@;
    assert(t0 =~= h + seq!['\n']);
    crate::text::lemma_lines_one(h);
    assert(crate::text::strip_cr(h) == h);
    lemma_kv_text(k1, d);
    lemma_kv_text(k2, m.1);
    lemma_kv_text(k3, w);
    let t1 = t0 + kv_text(k1, d);
    let t2 = t1 + kv_text(k2, m.1);
    let t3 = t2 + kv_text(k3, w);
    crate::text::lemma_lines_append(t0, kv_text(k1, d));
    crate::text::lemma_lines_append(t1, kv_text(k2, m.1));
    crate::text::lemma_lines_append(t2, kv_text(k3, w));
    crate::text::lemma_lines_append(t3, profile_tail(m));
    assert(lines(manifest_text(m)) =~= seq![h, k1 + seq!['='] + d, k2 + seq!['='] + m.1, k3 + seq!['='] + w] + lines(profile_tail(m)));
}

/// A manifest written with [`Manifest::to_text`] parses back as itself, when
/// its game id and profile are fit for a line and the profile, if chosen, is
/// not empty.
pub proof fn lemma_manifest_round_trip(m: ManifestM)
    requires
        line_value(m.1),
        match m.3 {
            Some(p) => p.len() > 0 && line_value(p),
            None => true,
        },
    ensures
        parse_manifest_spec(manifest_text(m)) == Some(m),
{
    lemma_manifest_lines(m);
    let h = seq!['[', 'e', 'i', 'd', 'o', 's', ']'];
    let d = dec(m.0 as nat);
    let w = kind_word(m.2);
    let head = seq![h, "schema_version"@ + seq!['='] + d, "game_id"@ + seq!['='] + m.1, "kind"@ + seq!['='] + w];
    lemma_head_fold(m, h, d, w);
    match m.3 {
        Some(p) => {
            reveal_strlit("selected_profile");
            let k4 = "selected_profile"@;
            assert(plain_key(k4));
            crate::ini::lemma_kv_text(k4, p);
            let l4 = k4 + seq!['='] + p;
            assert(lines(profile_tail(m)) =~= seq![l4]);
            assert((head + seq![l4]).drop_last() =~= head);
            assert(l4[0] == 's');
            reveal_strlit("schema_version");
            reveal_strlit("game_id");
            reveal_strlit("kind");
            assert(k4 != "schema_version"@);
            assert(k4 != "game_id"@);
            assert(k4 != "kind"@);
            assert(manifest_fold(head + seq![l4]) == (m.0, Some(m.1), m.2, Some(p)));
            assert(lines(manifest_text(m)) =~= head + seq![l4]);
        },
        None => {
            assert(lines(profile_tail(m)) =~= Seq::<Seq<char>>::empty());
            assert(lines(manifest_text(m)) =~= head);
        },
    }
}

/// The message for a folder that is not a directory.
pub open spec fn not_dir_message(root: Seq<char>) -> Seq<char> {
    seq!['\''] + root + "' is not a directory."@
}

/// The message for an instance-shaped folder without a readable manifest.
pub open spec fn unadopted_message(root: Seq<char>) -> Seq<char> {
    seq!['\''] + root
        + "' looks like an instance (it has a mods/ folder) but has no readable eidos-instance.ini naming its game. Open it once via the GUI wizard (pick its game and this folder) to adopt it."@
}

/// The message for a folder that is no instance at all.
pub open spec fn not_instance_message(root: Seq<char>) -> Seq<char> {
    seq!['\''] + root + "' is not an Eidos instance folder."@
}

impl crate::modlist::Instance {
    /// The instance's game id: the manifest's, else the last component of
    /// its root (right for a global instance, whose folder is named after
    /// the game).
    pub fn game_id(&self, manifest: Option<&Manifest>) -> (r: Option<String>)
        ensures
            match manifest {
                Some(m) => r == Some(m.game_id),
                None => match r {
                    Some(n) => crate::paths::file_name(self.root@) == Some(n@),
                    None => crate::paths::file_name(self.root@) is None,
                },
            },
    {
        match manifest {
            Some(m) => Some(m.game_id.clone()),
            None => crate::paths::file_name_of(self.root.as_str()),
        }
    }

    /// Open an existing folder as an instance: it must be a directory and
    /// name its game in a manifest. `is_dir` says whether `root` is a
    /// directory, `manifest` what reading its manifest gave, and `has_mods`
    /// whether it has a `mods/` folder; the error is a sentence for the user.
    pub fn open_at(root: &str, is_dir: bool, manifest: Option<Manifest>, has_mods: bool) -> (r: Result<(crate::modlist::Instance, Manifest), String>)
        ensures
            match r {
                Ok((i, m)) => is_dir && manifest == Some(m) && i.root@ == root@,
                Err(e) => if !is_dir {
                    e@ == not_dir_message(root@)
                } else {
                    manifest is None && e@ == (if has_mods { unadopted_message(root@) } else { not_instance_message(root@) })
                },
            },
    {
        if !is_dir {
            let mut s = "'".to_owned();
            push_str(&mut s, root);
            push_str(&mut s, "' is not a directory.");
            proof { reveal_strlit("'"); }
            assert(s@ =~= not_dir_message(root@));
            return Err(s);
        }
        match manifest {
            Some(m) => Ok((crate::modlist::Instance::portable(root.to_owned()), m)),
            None => {
                let mut s = "'".to_owned();
                push_str(&mut s, root);
                if has_mods {
                    push_str(&mut s, "' looks like an instance (it has a mods/ folder) but has no readable eidos-instance.ini naming its game. Open it once via the GUI wizard (pick its game and this folder) to adopt it.");
                } else {
                    push_str(&mut s, "' is not an Eidos instance folder.");
                }
                proof { reveal_strlit("'"); }
                assert(s@ =~= (if has_mods { unadopted_message(root@) } else { not_instance_message(root@) }));
                Err(s)
            },
        }
    }
}

} // verus!
