//! The per-instance tool list (`tools.ini`, one `[Tool/<title>]` section per
//! tool), the merge of per-game defaults with the user's tools, and the
//! default tools and prerequisites a game gets.

use vstd::prelude::*;

use crate::ini::{key_value, key_value_exec, kv_text, plain_key, section_header, section_header_exec};
use crate::meta::{strip_prefix, strs_view};
use crate::text::{
    find_char, chars_of, dec, eq_ic, eq_ic_str, is_control, is_control_exec, lines, lines_vec, lower,
    lower_vec, push_char, push_chars, push_str, slice_vec, eq_chars, eq_str, ends_with, ends_with_vec, split_on, split_vec, string_of, trim, trim_vec,
};

verus! {

/// One tool the user can run through the merged view.
#[derive(Debug, Clone, PartialEq, Eq)]
pub struct Tool {
    /// Display name and case-insensitive lookup key.
    pub title: String,
    /// The executable: absolute, or relative to the game install directory.
    pub exe: String,
    /// Extra command-line arguments.
    pub args: Vec<String>,
    /// Working directory; `None` is the executable's own directory.
    pub workdir: Option<String>,
    /// Runtime prerequisites to ensure before the tool runs.
    pub prereqs: Vec<String>,
    /// A mod folder to capture the tool's output into.
    pub output_mod: Option<String>,
}

/// A tool as `(title, exe, args, workdir, prereqs, output_mod)`.
pub type ToolM = (Seq<char>, Seq<char>, Seq<Seq<char>>, Option<Seq<char>>, Seq<Seq<char>>, Option<Seq<char>>);

/// The view of an optional string.
pub open spec fn ov(o: Option<String>) -> Option<Seq<char>> {
    match o {
        Some(s) => Some(s@),
        None => None,
    }
}

impl Tool {
    pub open spec fn model(&self) -> ToolM {
        (self.title@, self.exe@, strs_view(self.args@), ov(self.workdir), strs_view(self.prereqs@), ov(self.output_mod))
    }
}

/// The models of a list of tools.
pub open spec fn tools_view(v: Seq<Tool>) -> Seq<ToolM> {
    v.map_values(|t: Tool| t.model())
}

/// A name that is a mod folder and nothing else: after trimming, not empty,
/// not `.` or `..`, without `/`, `\` or control characters.
pub open spec fn mod_folder_name(name: Seq<char>) -> bool {
    let n = trim(name);
    &&& n.len() > 0
    &&& n != seq!['.']
    &&& n != seq!['.', '.']
    &&& forall|i: int| 0 <= i < n.len() ==> #[trigger] n[i] != '/' && n[i] != '\\' && !is_control(n[i])
}

/// Whether a string names a mod folder and nothing else.
pub fn is_mod_folder_name(name: &str) -> (b: bool)
    ensures
        b == mod_folder_name(name@),
{
    let v = chars_of(name);
    let n = trim_vec(&v);
    if n.len() == 0 {
        return false;
    }
    let dot = n.len() == 1 && n[0] == '.';
    assert(dot == (n@ == seq!['.'])) by {
        if n@.len() == 1 {
            assert(seq!['.'][0] == '.');
            assert(n@ =~= seq![n@[0]]);
        }
    }
    let dotdot = n.len() == 2 && n[0] == '.' && n[1] == '.';
    assert(dotdot == (n@ == seq!['.', '.'])) by {
        if n@.len() == 2 {
            assert(seq!['.', '.'][1] == '.');
            assert(n@ =~= seq![n@[0], n@[1]]);
        }
    }
    if dot || dotdot {
        return false;
    }
    let mut i: usize = 0;
    while i < n.len()
        invariant
            i <= n@.len(),
            n@ == trim(name@),
            n@.len() > 0,
            n@ != seq!['.'],
            n@ != seq!['.', '.'],
            forall|j: int| 0 <= j < i ==> #[trigger] n@[j] != '/' && n@[j] != '\\' && !is_control(n@[j]),
        decreases n.len() - i,
    {
        let c = n[i];
        if c == '/' || c == '\\' || is_control_exec(c) {
            assert(!(n@[i as int] != '/' && n@[i as int] != '\\' && !is_control(n@[i as int])));
            return false;
        }
        i = i + 1;
    }
    true
}

/// `Tool/`.
pub open spec fn tool_prefix() -> Seq<char> {
    seq!['T', 'o', 'o', 'l', '/']
}

/// An `arg<digits>` key.
pub open spec fn is_arg_key(k: Seq<char>) -> bool {
    k.len() > 3 && k[0] == 'a' && k[1] == 'r' && k[2] == 'g'
        && forall|i: int| 3 <= i < k.len() ==> #[trigger] crate::text::is_digit(k[i])
}

/// The non-empty trimmed pieces of a comma list.
pub open spec fn comma_items(ps: Seq<Seq<char>>) -> Seq<Seq<char>>
    decreases ps.len(),
{
    if ps.len() == 0 {
        Seq::empty()
    } else {
        let p = comma_items(ps.drop_last());
        if trim(ps.last()).len() > 0 { p.push(trim(ps.last())) } else { p }
    }
}

/// A tool with one key applied.
pub open spec fn apply_key(t: ToolM, k: Seq<char>, v: Seq<char>) -> ToolM {
    if k == "exe"@ {
        (t.0, v, t.2, t.3, t.4, t.5)
    } else if is_arg_key(k) {
        (t.0, t.1, t.2.push(v), t.3, t.4, t.5)
    } else if k == "args"@ && v.len() > 0 && t.2.len() == 0 {
        (t.0, t.1, split_on(v, ' '), t.3, t.4, t.5)
    } else if k == "workdir"@ && v.len() > 0 {
        (t.0, t.1, t.2, Some(v), t.4, t.5)
    } else if k == "prereqs"@ && v.len() > 0 {
        (t.0, t.1, t.2, t.3, comma_items(split_on(v, ',')), t.5)
    } else if k == "output_mod"@ && mod_folder_name(v) {
        (t.0, t.1, t.2, t.3, t.4, Some(v))
    } else {
        t
    }
}

/// The tools the lines describe, in order, before dropping the ones without
/// an executable: a `[Tool/<title>]` header starts a tool, and the `key=value`
/// lines after it set its fields.
pub open spec fn tools_fold(ls: Seq<Seq<char>>) -> Seq<ToolM>
    decreases ls.len(),
{
    if ls.len() == 0 {
        Seq::empty()
    } else {
        let out = tools_fold(ls.drop_last());
        let line = trim(ls.last());
        match section_header(line) {
            Some(sec) => match strip_prefix(sec, tool_prefix()) {
                Some(title) => out.push((title, Seq::empty(), Seq::empty(), None, Seq::empty(), None)),
                None => out,
            },
            None => if out.len() > 0 {
                match key_value(line) {
                    Some((k, v)) => out.update(out.len() - 1, apply_key(out.last(), k, trim(v))),
                    None => out,
                }
            } else {
                out
            },
        }
    }
}

/// The tools with an executable, in order.
pub open spec fn with_exe(ts: Seq<ToolM>) -> Seq<ToolM>
    decreases ts.len(),
{
    if ts.len() == 0 {
        Seq::empty()
    } else {
        let p = with_exe(ts.drop_last());
        if ts.last().1.len() > 0 { p.push(ts.last()) } else { p }
    }
}

/// The tools a `tools.ini` text lists.
pub open spec fn read_tools_spec(text: Seq<char>) -> Seq<ToolM> {
    with_exe(tools_fold(lines(text)))
}

fn word(v: &[char], s: &str) -> (b: bool)
    ensures
        b == (v@ == s@),
{
    let w = chars_of(s);
    crate::text::eq_chars(v, &w)
}

fn is_arg_key_exec(k: &[char]) -> (b: bool)
    ensures
        b == is_arg_key(k@),
{
    if !(k.len() > 3 && k[0] == 'a' && k[1] == 'r' && k[2] == 'g') {
        return false;
    }
    let mut i: usize = 3;
    while i < k.len()
        invariant
            3 <= i <= k@.len(),
            forall|j: int| 3 <= j < i ==> #[trigger] crate::text::is_digit(k@[j]),
        decreases k.len() - i,
    {
        if !('0' <= k[i] && k[i] <= '9') {
            assert(!crate::text::is_digit(k@[i as int]));
            return false;
        }
        i = i + 1;
    }
    true
}

fn strs_of(ps: &Vec<Vec<char>>) -> (r: Vec<String>)
    ensures
        strs_view(r@) == ps@.map_values(|p: Vec<char>| p@),
{
    let mut out: Vec<String> = Vec::new();
    let mut i: usize = 0;
    while i < ps.len()
        invariant
            i <= ps@.len(),
            strs_view(out@) == ps@.map_values(|p: Vec<char>| p@).take(i as int),
        decreases ps.len() - i,
    {
        let ghost before = strs_view(out@);
        let s = string_of(&ps[i]);
        assert(s@ == ps@.map_values(|p: Vec<char>| p@)[i as int]);
        out.push(s);
        assert(strs_view(out@) =~= before.push(s@));
        assert(strs_view(out@) =~= ps@.map_values(|p: Vec<char>| p@).take(i + 1));
        i = i + 1;
    }
    assert(ps@.map_values(|p: Vec<char>| p@).take(i as int) =~= ps@.map_values(|p: Vec<char>| p@));
    out
}

pub(crate) fn comma_items_exec(v: &[char]) -> (r: Vec<String>)
    ensures
        strs_view(r@) == comma_items(split_on(v@, ',')),
{
    let ps = split_vec(v, ',');
    let ghost pm = split_on(v@, ',');
    let mut out: Vec<String> = Vec::new();
    let mut i: usize = 0;
    assert(strs_view(out@) =~= Seq::<Seq<char>>::empty());
    while i < ps.len()
        invariant
            i <= ps@.len(),
            ps@.len() == pm.len(),
            forall|k: int| 0 <= k < ps@.len() ==> (#[trigger] ps@[k])@ == pm[k],
            strs_view(out@) == comma_items(pm.take(i as int)),
        decreases ps.len() - i,
    {
        assert(pm.take(i + 1).drop_last() =~= pm.take(i as int));
        assert(pm.take(i + 1).last() == ps@[i as int]@);
        let t = trim_vec(&ps[i]);
        if t.len() > 0 {
            let ghost before = strs_view(out@);
            let s = string_of(&t);
            out.push(s);
            assert(strs_view(out@) =~= before.push(s@));
        }
        i = i + 1;
    }
    assert(pm.take(i as int) =~= pm);
    out
}

impl Tool {
    fn blank(title: String) -> (t: Tool)
        ensures
            t.model() == (title@, Seq::<char>::empty(), Seq::<Seq<char>>::empty(), None::<Seq<char>>, Seq::<Seq<char>>::empty(), None::<Seq<char>>),
    {
        let t = Tool { title, exe: String::new(), args: Vec::new(), workdir: None, prereqs: Vec::new(), output_mod: None };
        assert(strs_view(t.args@) =~= Seq::<Seq<char>>::empty());
        assert(strs_view(t.prereqs@) =~= Seq::<Seq<char>>::empty());
        t
    }

    fn apply(&mut self, k: &[char], v: &[char])
        ensures
            final(self).model() == apply_key(old(self).model(), k@, v@),
    {
        if word(k, "exe") {
            self.exe = string_of(v);
        } else if is_arg_key_exec(k) {
            let ghost before = strs_view(self.args@);
            let s = string_of(v);
            self.args.push(s);
            assert(strs_view(self.args@) =~= before.push(s@));
        } else if word(k, "args") && v.len() > 0 && self.args.len() == 0 {
            let ps = split_vec(v, ' ');
            assert(ps@.map_values(|p: Vec<char>| p@) =~= split_on(v@, ' '));
            self.args = strs_of(&ps);
        } else if word(k, "workdir") && v.len() > 0 {
            self.workdir = Some(string_of(v));
        } else if word(k, "prereqs") && v.len() > 0 {
            self.prereqs = comma_items_exec(v);
        } else if word(k, "output_mod") && is_mod_folder_name(string_of(v).as_str()) {
            self.output_mod = Some(string_of(v));
        }
    }
}

/// Read a `tools.ini` text; tools without an executable are dropped.
pub fn read_tools(text: &str) -> (r: Vec<Tool>)
    ensures
        tools_view(r@) == read_tools_spec(text@),
{
    let tv = chars_of(text);
    let ls = lines_vec(&tv);
    let ghost lm = lines(text@);
    let mut out: Vec<Tool> = Vec::new();
    let mut i: usize = 0;
    let pre = ['T', 'o', 'o', 'l', '/'];
    assert(pre@ =~= tool_prefix());
    assert(tools_view(out@) =~= Seq::<ToolM>::empty());
    while i < ls.len()
        invariant
            i <= ls@.len(),
            ls@.len() == lm.len(),
            pre@ == tool_prefix(),
            forall|k: int| 0 <= k < ls@.len() ==> (#[trigger] ls@[k])@ == lm[k],
            tools_view(out@) == tools_fold(lm.take(i as int)),
        decreases ls.len() - i,
    {
        assert(lm.take(i + 1).drop_last() =~= lm.take(i as int));
        assert(lm.take(i + 1).last() == ls@[i as int]@);
        let line = trim_vec(&ls[i]);
        match section_header_exec(&line) {
            Some(sec) => {
                match crate::meta::strip_prefix_pub(&sec, &pre) {
                    Some(title) => {
                        let ghost before = tools_view(out@);
                        let t = Tool::blank(string_of(&title));
                        out.push(t);
                        assert(tools_view(out@) =~= before.push(t.model()));
                    },
                    None => {},
                }
            },
            None => {
                if out.len() > 0 {
                    match key_value_exec(&line) {
                        Some((k, v)) => {
                            let vt = trim_vec(&v);
                            let ghost before = tools_view(out@);
                            let n = out.len();
                            let mut t = out.remove(n - 1);
                            t.apply(&k, &vt);
                            out.push(t);
                            assert(tools_view(out@) =~= before.update(before.len() - 1, t.model()));
                        },
                        None => {},
                    }
                }
            },
        }
        i = i + 1;
    }
    assert(lm.take(i as int) =~= lm);
    let ghost all = tools_view(out@);
    let mut kept: Vec<Tool> = Vec::new();
    assert(tools_view(kept@) =~= Seq::<ToolM>::empty());
    let n = out.len();
    let mut out = out;
    let mut rest: Vec<Tool> = Vec::new();
    while out.len() > 0
        invariant
            out@.len() <= n,
            all.len() == n,
            tools_view(out@) == all.take(out@.len() as int),
            tools_view(rest@) == with_exe(all.skip(out@.len() as int)).reverse(),
        decreases out.len(),
    {
        let ghost k: int = out@.len() as int;
        let t = out.pop().unwrap();
        assert(all.take(k).last() == t.model());
        assert(tools_view(out@) =~= all.take(k - 1));
        assert(all.skip(k - 1) =~= seq![t.model()] + all.skip(k));
        proof {
            lemma_with_exe_cons(t.model(), all.skip(k));
        }
        if !t.exe.as_str().is_empty() {
            let ghost before = tools_view(rest@);
            rest.push(t);
            assert(tools_view(rest@) =~= before.push(t.model()));
        }
    }
    assert(all.skip(0) =~= all);
    while rest.len() > 0
        invariant
            tools_view(kept@) + tools_view(rest@).reverse() == with_exe(all),
        decreases rest.len(),
    {
        let ghost r0 = tools_view(rest@);
        let t = rest.pop().unwrap();
        let ghost k0 = tools_view(kept@);
        kept.push(t);
        assert(tools_view(kept@) =~= k0.push(t.model()));
        assert(r0 =~= tools_view(rest@).push(t.model()));
        assert(r0.reverse() =~= seq![t.model()] + tools_view(rest@).reverse());
        assert(tools_view(kept@) + tools_view(rest@).reverse() =~= k0 + r0.reverse());
    }
    assert(tools_view(rest@).reverse() =~= Seq::<ToolM>::empty());
    assert(tools_view(kept@) =~= with_exe(all));
    kept
}

/// `with_exe` of a list with one tool in front.
proof fn lemma_with_exe_cons(t: ToolM, ts: Seq<ToolM>)
    ensures
        with_exe(seq![t] + ts) == if t.1.len() > 0 { seq![t] + with_exe(ts) } else { with_exe(ts) },
    decreases ts.len(),
{
    let x = seq![t] + ts;
    if ts.len() > 0 {
        lemma_with_exe_cons(t, ts.drop_last());
        assert(x.drop_last() =~= seq![t] + ts.drop_last());
        assert(x.last() == ts.last());
        if ts.last().1.len() > 0 {
            assert((seq![t] + with_exe(ts.drop_last())).push(ts.last()) =~= seq![t] + with_exe(ts.drop_last()).push(ts.last()));
        }
    } else {
        assert(x.drop_last() =~= Seq::<ToolM>::empty());
        assert(x.last() == t);
        assert(ts =~= Seq::<ToolM>::empty());
        assert(Seq::<ToolM>::empty().push(t) =~= seq![t] + Seq::<ToolM>::empty());
    }
}


/// Whether a title has a control character.
pub open spec fn has_control(s: Seq<char>) -> bool {
    exists|i: int| 0 <= i < s.len() && is_control(#[trigger] s[i])
}

/// `arg<i>=<a>` lines, one per argument, in order.
pub open spec fn arg_lines(args: Seq<Seq<char>>) -> Seq<char>
    decreases args.len(),
{
    if args.len() == 0 {
        Seq::empty()
    } else {
        arg_lines(args.drop_last()) + kv_text("arg"@ + dec((args.len() - 1) as nat), args.last())
    }
}

/// Items joined with `,`.
pub open spec fn join_commas(v: Seq<Seq<char>>) -> Seq<char>
    decreases v.len(),
{
    if v.len() == 0 {
        Seq::empty()
    } else if v.len() == 1 {
        v[0]
    } else {
        join_commas(v.drop_last()) + seq![','] + v.last()
    }
}

/// The optional lines of a section: working directory, prerequisites and
/// output mod (this last only where it names a mod folder).
pub open spec fn tail_lines(t: ToolM) -> Seq<char> {
    let w = match t.3 {
        Some(w) => kv_text("workdir"@, w),
        None => Seq::empty(),
    };
    let p = if t.4.len() > 0 { kv_text("prereqs"@, join_commas(t.4)) } else { Seq::empty() };
    let m = match t.5 {
        Some(m) => if mod_folder_name(m) { kv_text("output_mod"@, m) } else { Seq::empty() },
        None => Seq::empty(),
    };
    w + p + m
}

/// The header line of a tool's section, terminated.
pub open spec fn header_text(title: Seq<char>) -> Seq<char> {
    "[Tool/"@ + title + seq![']', '\n']
}

/// One tool's section, or nothing for a title that is empty after trimming
/// or holds a control character.
pub open spec fn tool_section(t: ToolM) -> Seq<char> {
    let title = trim(t.0);
    if title.len() == 0 || has_control(title) {
        Seq::empty()
    } else {
        header_text(title) + kv_text("exe"@, t.1) + arg_lines(t.2) + tail_lines(t)
            + seq!['\n']
    }
}

/// The `tools.ini` text of a list.
pub open spec fn write_tools_spec(ts: Seq<ToolM>) -> Seq<char>
    decreases ts.len(),
{
    if ts.len() == 0 {
        Seq::empty()
    } else {
        write_tools_spec(ts.drop_last()) + tool_section(ts.last())
    }
}

fn push_args(out: &mut String, args: &Vec<String>)
    ensures
        final(out)@ == old(out)@ + arg_lines(strs_view(args@)),
{
    let ghost p1 = out@;
    let ghost am = strs_view(args@);
    let mut a: usize = 0;
    assert(p1 + arg_lines(am.take(0)) =~= p1);
    while a < args.len()
        invariant
            a <= args@.len(),
            am == strs_view(args@),
            out@ == p1 + arg_lines(am.take(a as int)),
        decreases args.len() - a,
    {
        assert(am.take(a + 1).drop_last() =~= am.take(a as int));
        assert(am.take(a + 1).last() == args@[a as int]@);
        push_str(out, "arg");
        push_str(out, crate::text::u64_to_string(a as u64).as_str());
        push_char(out, '=');
        push_str(out, args[a].as_str());
        push_char(out, '\n');
        assert(out@ =~= p1 + arg_lines(am.take(a + 1)));
        a = a + 1;
    }
    assert(am.take(a as int) =~= am);
}

pub(crate) fn push_commas(out: &mut String, items: &Vec<String>)
    ensures
        final(out)@ == old(out)@ + join_commas(strs_view(items@)),
{
    let ghost pm = strs_view(items@);
    let ghost p4 = out@;
    let mut q: usize = 0;
    assert(p4 + join_commas(pm.take(0)) =~= p4);
    while q < items.len()
        invariant
            q <= items@.len(),
            pm == strs_view(items@),
            out@ == p4 + join_commas(pm.take(q as int)),
        decreases items.len() - q,
    {
        assert(pm.take(q + 1).drop_last() =~= pm.take(q as int));
        assert(pm.take(q + 1).last() == items@[q as int]@);
        if q > 0 {
            push_char(out, ',');
        }
        push_str(out, items[q].as_str());
        proof {
            if q == 0 {
                assert(pm.take(1) =~= seq![pm[0]]);
            }
        }
        assert(out@ =~= p4 + join_commas(pm.take(q + 1)));
        q = q + 1;
    }
    assert(pm.take(q as int) =~= pm);
}

fn push_kv(out: &mut String, k: &str, v: &str)
    ensures
        final(out)@ == old(out)@ + kv_text(k@, v@),
{
    push_str(out, k);
    push_char(out, '=');
    push_str(out, v);
    push_char(out, '\n');
    assert(out@ =~= old(out)@ + kv_text(k@, v@));
}

fn push_tail(out: &mut String, t: &Tool)
    ensures
        final(out)@ == old(out)@ + tail_lines(t.model()),
{
    let ghost o = out@;
    match &t.workdir {
        Some(w) => push_kv(out, "workdir", w.as_str()),
        None => {},
    }
    let ghost p3 = out@;
    if t.prereqs.len() > 0 {
        let ghost q = out@;
        push_str(out, "prereqs");
        push_char(out, '=');
        push_commas(out, &t.prereqs);
        push_char(out, '\n');
        assert(out@ =~= q + kv_text("prereqs"@, join_commas(strs_view(t.prereqs@))));
    }
    let ghost p5 = out@;
    match &t.output_mod {
        Some(m) => {
            if is_mod_folder_name(m.as_str()) {
                push_kv(out, "output_mod", m.as_str());
            }
        },
        None => {},
    }
    assert(out@ =~= o + tail_lines(t.model()));
}

fn push_section(out: &mut String, t: &Tool)
    ensures
        final(out)@ == old(out)@ + tool_section(t.model()),
{
    let tv = chars_of(t.title.as_str());
    let title = trim_vec(&tv);
    let mut bad = title.len() == 0;
    let mut k: usize = 0;
    while k < title.len()
        invariant
            k <= title@.len(),
            bad == (title@.len() == 0 || exists|j: int| 0 <= j < k && is_control(#[trigger] title@[j])),
        decreases title.len() - k,
    {
        if is_control_exec(title[k]) {
            bad = true;
        }
        k = k + 1;
    }
    if bad {
        assert(tool_section(t.model()) =~= Seq::<char>::empty());
        assert(out@ =~= old(out)@ + tool_section(t.model()));
        return;
    }
    let ghost o = out@;
    push_str(out, "[Tool/");
    push_chars(out, &title);
    push_char(out, ']');
    push_char(out, '\n');
    let ghost p1 = out@;
    assert(p1 =~= o + header_text(title@));
    push_kv(out, "exe", t.exe.as_str());
    push_args(out, &t.args);
    let ghost p2 = out@;
    push_tail(out, t);
    push_char(out, '\n');
    assert(!has_control(title@));
    assert(out@ =~= o + tool_section(t.model()));
}

/// The `tools.ini` text of a tool list, one section per tool; an entry whose
/// title is empty or holds a control character is skipped.
pub fn write_tools(tools: &[Tool]) -> (s: String)
    ensures
        s@ == write_tools_spec(tools_view(tools@)),
{
    let ghost tm = tools_view(tools@);
    let mut out = String::new();
    let mut i: usize = 0;
    while i < tools.len()
        invariant
            i <= tools@.len(),
            tm == tools_view(tools@),
            out@ == write_tools_spec(tm.take(i as int)),
        decreases tools.len() - i,
    {
        assert(tm.take(i + 1).drop_last() =~= tm.take(i as int));
        assert(tm.take(i + 1).last() == tools@[i as int].model());
        push_section(&mut out, &tools[i]);
        i = i + 1;
    }
    assert(tm.take(i as int) =~= tm);
    out
}

fn clone_strs(v: &Vec<String>) -> (r: Vec<String>)
    ensures
        strs_view(r@) == strs_view(v@),
{
    let mut out: Vec<String> = Vec::new();
    let mut i: usize = 0;
    while i < v.len()
        invariant
            i <= v@.len(),
            strs_view(out@) == strs_view(v@).take(i as int),
        decreases v.len() - i,
    {
        let ghost before = strs_view(out@);
        let c = v[i].clone();
        out.push(c);
        assert(strs_view(out@) =~= before.push(c@));
        assert(strs_view(out@) =~= strs_view(v@).take(i + 1));
        i = i + 1;
    }
    assert(strs_view(v@).take(i as int) =~= strs_view(v@));
    out
}

impl Tool {
    /// A copy of this tool.
    pub fn copy(&self) -> (t: Tool)
        ensures
            t.model() == self.model(),
    {
        Tool {
            title: self.title.clone(),
            exe: self.exe.clone(),
            args: clone_strs(&self.args),
            workdir: match &self.workdir {
                Some(w) => Some(w.clone()),
                None => None,
            },
            prereqs: clone_strs(&self.prereqs),
            output_mod: match &self.output_mod {
                Some(m) => Some(m.clone()),
                None => None,
            },
        }
    }
}

/// Whether a title collides (ignoring ASCII case) with one in the list.
pub open spec fn has_title(ts: Seq<ToolM>, title: Seq<char>) -> bool {
    exists|i: int| 0 <= i < ts.len() && eq_ic((#[trigger] ts[i]).0, title)
}

/// The merged list: the user's tools, then each default whose title does not
/// collide with one already in the list.
pub open spec fn merge_spec(user: Seq<ToolM>, defaults: Seq<ToolM>) -> Seq<ToolM>
    decreases defaults.len(),
{
    if defaults.len() == 0 {
        user
    } else {
        let p = merge_spec(user, defaults.drop_last());
        if has_title(p, defaults.last().0) { p } else { p.push(defaults.last()) }
    }
}

/// Merge per-game defaults with the user's tools: the user's first, and they
/// win a title collision (ignoring ASCII case).
pub fn merge_tools(user: Vec<Tool>, defaults: Vec<Tool>) -> (r: Vec<Tool>)
    ensures
        tools_view(r@) == merge_spec(tools_view(user@), tools_view(defaults@)),
{
    let ghost dm = tools_view(defaults@);
    let ghost um = tools_view(user@);
    let mut out = user;
    let mut i: usize = 0;
    while i < defaults.len()
        invariant
            i <= defaults@.len(),
            dm == tools_view(defaults@),
            tools_view(out@) == merge_spec(um, dm.take(i as int)),
        decreases defaults.len() - i,
    {
        assert(dm.take(i + 1).drop_last() =~= dm.take(i as int));
        assert(dm.take(i + 1).last() == defaults@[i as int].model());
        let d = &defaults[i];
        let ghost o0 = tools_view(out@);
        let mut hit = false;
        let mut j: usize = 0;
        while j < out.len()
            invariant
                j <= out@.len(),
                o0 == tools_view(out@),
                hit == exists|x: int| 0 <= x < j && eq_ic((#[trigger] o0[x]).0, d.title@),
            decreases out.len() - j,
        {
            if eq_ic_str(out[j].title.as_str(), d.title.as_str()) {
                assert(eq_ic(o0[j as int].0, d.title@));
                hit = true;
            }
            j = j + 1;
        }
        if !hit {
            let c = d.copy();
            out.push(c);
            assert(tools_view(out@) =~= o0.push(c.model()));
        }
        i = i + 1;
    }
    assert(dm.take(i as int) =~= dm);
    out
}

/// Whether `needle` occurs in `s` as a contiguous run.
pub open spec fn contains_run(s: Seq<char>, needle: Seq<char>) -> bool {
    exists|i: int| 0 <= i && i + needle.len() <= s.len() && #[trigger] s.subrange(i, i + needle.len()) == needle
}

fn contains_run_exec(hay: &[char], needle: &str) -> (b: bool)
    ensures
        b == contains_run(hay@, needle@),
{
    let nv = chars_of(needle);
    if nv.len() == 0 {
        assert(hay@.subrange(0, 0 + needle@.len() as int) =~= needle@);
        return true;
    }
    if nv.len() > hay.len() {
        return false;
    }
    let last = hay.len() - nv.len();
    let mut i: usize = 0;
    while i <= last
        invariant
            nv@ == needle@,
            nv@.len() > 0,
            last == hay.len() - nv.len(),
            i <= last + 1,
            forall|j: int| 0 <= j < i ==> #[trigger] hay@.subrange(j, j + nv@.len()) != nv@,
        decreases last + 1 - i,
    {
        let part = slice_vec(hay, i, i + nv.len());
        if eq_chars(&part, &nv) {
            return true;
        }
        i = i + 1;
    }
    assert forall|j: int| 0 <= j && j + needle@.len() <= hay@.len() implies #[trigger] hay@.subrange(j, j + needle@.len()) != needle@ by {
        assert(j < i);
    }
    false
}

/// The verbs of a list of names.
pub open spec fn verbs(v: Seq<&str>) -> Seq<Seq<char>> {
    v.map_values(|s: &str| s@)
}

/// The runtime prerequisites known for a well-known tool, by its title
/// (matched ignoring ASCII case, by substring; the first rule that applies wins).
pub open spec fn prereqs_for(title: Seq<char>) -> Seq<Seq<char>> {
    let t = lower(title);
    if contains_run(t, "synthesis"@) {
        seq!["dotnet8"@, "vcrun2022"@]
    } else if contains_run(t, "pandora"@) {
        seq!["dotnetdesktop8"@]
    } else if contains_run(t, "fnis"@) {
        seq!["dotnet48"@]
    } else if contains_run(t, "bodyslide"@) || contains_run(t, "outfit"@) {
        seq!["d3dx9_43"@, "d3dcompiler_47"@]
    } else if contains_run(t, "dyndolod"@) || contains_run(t, "texgen"@) || contains_run(t, "xlodgen"@) {
        seq!["d3dcompiler_47"@, "d3dx9_43"@, "d3dx11_43"@, "dotnet10"@]
    } else if contains_run(t, "cathedral"@) || contains_run(t, "cao"@) {
        seq!["vcrun2022"@, "d3dcompiler_47"@, "d3dx11_43"@]
    } else if contains_run(t, "nemesis"@) || contains_run(t, "loot"@) {
        seq!["vcrun2022"@]
    } else {
        Seq::empty()
    }
}

fn owned_list(v: &[&str]) -> (r: Vec<String>)
    ensures
        strs_view(r@) == verbs(v@),
{
    let mut out: Vec<String> = Vec::new();
    let mut i: usize = 0;
    while i < v.len()
        invariant
            i <= v@.len(),
            strs_view(out@) == verbs(v@).take(i as int),
        decreases v.len() - i,
    {
        let ghost before = strs_view(out@);
        let s = v[i].to_owned();
        out.push(s);
        assert(strs_view(out@) =~= before.push(s@));
        assert(strs_view(out@) =~= verbs(v@).take(i + 1));
        i = i + 1;
    }
    assert(verbs(v@).take(i as int) =~= verbs(v@));
    out
}

/// The known runtime prerequisites for a well-known modding tool, by title.
pub fn default_prereqs(title: &str) -> (r: Vec<String>)
    ensures
        strs_view(r@) == prereqs_for(title@),
{
    let tv = chars_of(title);
    let t = lower_vec(&tv);
    let list: &[&str] = if contains_run_exec(&t, "synthesis") {
        &["dotnet8", "vcrun2022"]
    } else if contains_run_exec(&t, "pandora") {
        &["dotnetdesktop8"]
    } else if contains_run_exec(&t, "fnis") {
        &["dotnet48"]
    } else if contains_run_exec(&t, "bodyslide") || contains_run_exec(&t, "outfit") {
        &["d3dx9_43", "d3dcompiler_47"]
    } else if contains_run_exec(&t, "dyndolod") || contains_run_exec(&t, "texgen") || contains_run_exec(&t, "xlodgen") {
        &["d3dcompiler_47", "d3dx9_43", "d3dx11_43", "dotnet10"]
    } else if contains_run_exec(&t, "cathedral") || contains_run_exec(&t, "cao") {
        &["vcrun2022", "d3dcompiler_47", "d3dx11_43"]
    } else if contains_run_exec(&t, "nemesis") || contains_run_exec(&t, "loot") {
        &["vcrun2022"]
    } else {
        &[]
    };
    let r = owned_list(list);
    assert(strs_view(r@) =~= prereqs_for(title@));
    r
}

/// The per-game executables that become default tools: the script-extender
/// loader, the vanilla launcher and the game's own binary. An empty or absent
/// field is skipped.
#[derive(Debug, Clone, Copy)]
pub struct GameExecutables<'a> {
    /// Display name of the game, used to title the launcher and binary entries.
    pub game_name: &'a str,
    /// The vanilla launcher.
    pub launcher: Option<&'a str>,
    /// The game's own binary.
    pub binary: Option<&'a str>,
    /// The script-extender loader.
    pub script_extender: Option<&'a str>,
}

/// The view of an optional string slice.
pub open spec fn osv(o: Option<&str>) -> Option<Seq<char>> {
    match o {
        Some(s) => Some(s@),
        None => None,
    }
}

/// `s` with every trailing `.exe` removed (`str::trim_end_matches`).
pub open spec fn strip_exe(s: Seq<char>) -> Seq<char>
    decreases s.len(),
{
    if s.len() >= 4 && ends_with(s, ".exe"@) {
        strip_exe(s.subrange(0, s.len() - 4))
    } else {
        s
    }
}

fn strip_exe_exec(s: &str) -> (r: String)
    ensures
        r@ == strip_exe(s@),
{
    let ext = chars_of(".exe");
    let mut v = chars_of(s);
    proof { reveal_strlit(".exe"); }
    while v.len() >= 4 && ends_with_vec(&v, &ext)
        invariant
            ext@ == ".exe"@,
            strip_exe(v@) == strip_exe(s@),
        decreases v.len(),
    {
        let n = v.len() - 4;
        v = slice_vec(&v, 0, n);
    }
    string_of(&v)
}

/// Whether an executable is present in one of the searched directories, given
/// for each directory the executables found there.
pub open spec fn present_in(exe: Seq<char>, dirs: Seq<Seq<Seq<char>>>) -> bool {
    exists|d: int, k: int| 0 <= d < dirs.len() && 0 <= k < dirs[d].len() && #[trigger] dirs[d][k] == exe
}

/// A default tool entry, as pushed when its executable is present.
pub open spec fn default_tool(title: Seq<char>, exe: Seq<char>) -> ToolM {
    (title, exe, Seq::empty(), None, prereqs_for(title), None)
}

/// `v` with the tool `title` for `exe` added when `exe` is given, not empty
/// and present.
pub open spec fn add_if_present(v: Seq<ToolM>, title: Seq<char>, exe: Option<Seq<char>>, dirs: Seq<Seq<Seq<char>>>) -> Seq<ToolM> {
    match exe {
        Some(e) => if e.len() > 0 && present_in(e, dirs) { v.push(default_tool(title, e)) } else { v },
        None => v,
    }
}

/// The title of the launcher or binary entry.
pub open spec fn game_title(game: Seq<char>, exe: Option<Seq<char>>, suffix: Seq<char>) -> Seq<char> {
    if game.len() == 0 {
        match exe {
            Some(e) => strip_exe(e),
            None => Seq::empty(),
        }
    } else {
        game + suffix
    }
}

/// The default tool list: the script extender first, then the launcher, then
/// the game binary, each only when its file is present.
pub open spec fn default_tools_spec(
    game: Seq<char>,
    launcher: Option<Seq<char>>,
    binary: Option<Seq<char>>,
    extender: Option<Seq<char>>,
    dirs: Seq<Seq<Seq<char>>>,
) -> Seq<ToolM> {
    let v1 = add_if_present(Seq::empty(), match extender { Some(e) => strip_exe(e), None => Seq::empty() }, extender, dirs);
    let v2 = add_if_present(v1, game_title(game, launcher, " Launcher"@), launcher, dirs);
    add_if_present(v2, game_title(game, binary, Seq::empty()), binary, dirs)
}

/// The executables found in each searched directory, as models.
pub open spec fn dirs_view(d: Seq<Vec<String>>) -> Seq<Seq<Seq<char>>> {
    d.map_values(|v: Vec<String>| strs_view(v@))
}

fn present_exec(exe: &str, dirs: &Vec<Vec<String>>) -> (b: bool)
    ensures
        b == present_in(exe@, dirs_view(dirs@)),
{
    let ghost dv = dirs_view(dirs@);
    let mut d: usize = 0;
    while d < dirs.len()
        invariant
            d <= dirs@.len(),
            dv == dirs_view(dirs@),
            forall|a: int, k: int| 0 <= a < d && 0 <= k < dv[a].len() ==> #[trigger] dv[a][k] != exe@,
        decreases dirs.len() - d,
    {
        let row = &dirs[d];
        assert(dv[d as int] == strs_view(row@));
        let mut k: usize = 0;
        while k < row.len()
            invariant
                d < dirs@.len(),
                dv == dirs_view(dirs@),
                k <= row@.len(),
                row == dirs@[d as int],
                dv[d as int] == strs_view(row@),
                forall|j: int| 0 <= j < k ==> #[trigger] dv[d as int][j] != exe@,
            decreases row.len() - k,
        {
            if eq_str(row[k].as_str(), exe) {
                assert(dv[d as int][k as int] == exe@);
                return true;
            }
            k = k + 1;
        }
        d = d + 1;
    }
    false
}

fn add_if_present_exec(v: &mut Vec<Tool>, title: String, exe: Option<&str>, dirs: &Vec<Vec<String>>)
    ensures
        tools_view(final(v)@) == add_if_present(tools_view(old(v)@), title@, osv(exe), dirs_view(dirs@)),
{
    match exe {
        Some(e) => {
            if !e.is_empty() && present_exec(e, dirs) {
                let ghost before = tools_view(v@);
                let prereqs = default_prereqs(title.as_str());
                let t = Tool {
                    title,
                    exe: e.to_owned(),
                    args: Vec::new(),
                    workdir: None,
                    prereqs,
                    output_mod: None,
                };
                assert(strs_view(t.args@) =~= Seq::<Seq<char>>::empty());
                v.push(t);
                assert(tools_view(v@) =~= before.push(t.model()));
            }
        },
        None => {},
    }
}

fn game_title_exec(game: &str, exe: Option<&str>, suffix: &str) -> (r: String)
    ensures
        r@ == game_title(game@, osv(exe), suffix@),
{
    if game.is_empty() {
        match exe {
            Some(e) => strip_exe_exec(e),
            None => String::new(),
        }
    } else {
        let mut t = game.to_owned();
        push_str(&mut t, suffix);
        t
    }
}

/// The default tool list for a game: the script extender (the usual play
/// target) first, then the vanilla launcher, then the bare game binary, each
/// only when its executable is present in `install` or one of `root_layers`,
/// each given as the executables found in that directory.
pub fn default_tools_in(execs: GameExecutables, install: &Vec<String>, root_layers: &Vec<Vec<String>>) -> (r: Vec<Tool>)
    ensures
        tools_view(r@) == default_tools_spec(
            execs.game_name@,
            osv(execs.launcher),
            osv(execs.binary),
            osv(execs.script_extender),
            seq![strs_view(install@)] + dirs_view(root_layers@),
        ),
{
    let mut search: Vec<Vec<String>> = Vec::new();
    search.push(clone_strs(install));
    let mut i: usize = 0;
    while i < root_layers.len()
        invariant
            i <= root_layers@.len(),
            dirs_view(search@) == seq![strs_view(install@)] + dirs_view(root_layers@).take(i as int),
        decreases root_layers.len() - i,
    {
        let ghost before = dirs_view(search@);
        let c = clone_strs(&root_layers[i]);
        search.push(c);
        assert(dirs_view(search@) =~= before.push(strs_view(c@)));
        assert(dirs_view(search@) =~= seq![strs_view(install@)] + dirs_view(root_layers@).take(i + 1));
        i = i + 1;
    }
    assert(dirs_view(root_layers@).take(i as int) =~= dirs_view(root_layers@));
    let ghost dirs = seq![strs_view(install@)] + dirs_view(root_layers@);
    assert(dirs_view(search@) == dirs);
    let mut v: Vec<Tool> = Vec::new();
    assert(tools_view(v@) =~= Seq::<ToolM>::empty());
    let t1 = match execs.script_extender {
        Some(e) => strip_exe_exec(e),
        None => String::new(),
    };
    add_if_present_exec(&mut v, t1, execs.script_extender, &search);
    let ghost v1 = tools_view(v@);
    let t2 = game_title_exec(execs.game_name, execs.launcher, " Launcher");
    add_if_present_exec(&mut v, t2, execs.launcher, &search);
    let ghost v2 = tools_view(v@);
    assert(v2 == add_if_present(v1, game_title(execs.game_name@, osv(execs.launcher), " Launcher"@), osv(execs.launcher), dirs));
    let t3 = game_title_exec(execs.game_name, execs.binary, "");
    add_if_present_exec(&mut v, t3, execs.binary, &search);
    assert(tools_view(v@) == add_if_present(v2, game_title(execs.game_name@, osv(execs.binary), ""@), osv(execs.binary), dirs));
    assert(""@ =~= Seq::<char>::empty()) by { reveal_strlit(""); }
    v
}

/// [`default_tools_in`] with no root layers: only the game install directory,
/// given as the executables found there, is searched.
pub fn default_tools(execs: GameExecutables, install: &Vec<String>) -> (r: Vec<Tool>)
    ensures
        tools_view(r@) == default_tools_spec(
            execs.game_name@,
            osv(execs.launcher),
            osv(execs.binary),
            osv(execs.script_extender),
            seq![strs_view(install@)],
        ),
{
    let none: Vec<Vec<String>> = Vec::new();
    let r = default_tools_in(execs, install, &none);
    assert(seq![strs_view(install@)] + dirs_view(none@) =~= seq![strs_view(install@)]);
    r
}

/// Merging keeps the user's tools first and unchanged, and adds a default
/// only when no tool already in the list has its title (ignoring ASCII
/// case): a user entry always wins a collision.
pub proof fn lemma_merge_user_wins(user: Seq<ToolM>, defaults: Seq<ToolM>)
    ensures
        merge_spec(user, defaults).len() >= user.len(),
        merge_spec(user, defaults).take(user.len() as int) == user,
        forall|i: int| 0 <= i < user.len() ==> has_title(merge_spec(user, defaults), #[trigger] user[i].0),
    decreases defaults.len(),
{
    if defaults.len() == 0 {
        assert(user.take(user.len() as int) =~= user);
        assert forall|i: int| 0 <= i < user.len() implies has_title(user, #[trigger] user[i].0) by {
            assert(eq_ic(user[i].0, user[i].0));
        }
    } else {
        lemma_merge_user_wins(user, defaults.drop_last());
        let p = merge_spec(user, defaults.drop_last());
        let q = merge_spec(user, defaults);
        assert(q.take(user.len() as int) =~= p.take(user.len() as int));
        assert forall|i: int| 0 <= i < user.len() implies has_title(q, #[trigger] user[i].0) by {
            assert(has_title(p, user[i].0));
            let k = choose|k: int| 0 <= k < p.len() && eq_ic((#[trigger] p[k]).0, user[i].0);
            assert(q[k] == p[k]);
        }
    }
}

/// A value a `tools.ini` line carries unchanged: trimmed, without a line break.
pub open spec fn text_value(v: Seq<char>) -> bool {
    trim(v) == v && forall|j: int| 0 <= j < v.len() ==> v[j] != '\n'
}

/// A tool that `write_tools` writes and `read_tools` reads back unchanged: a
/// trimmed title without control characters, a non-empty executable, and
/// fields that each fit on their line (prerequisites without commas, an
/// output mod that names a mod folder).
pub open spec fn writable_tool(t: ToolM) -> bool {
    &&& t.0.len() > 0 && trim(t.0) == t.0 && !has_control(t.0)
    &&& t.1.len() > 0 && text_value(t.1)
    &&& forall|i: int| 0 <= i < t.2.len() ==> text_value(#[trigger] t.2[i])
    &&& match t.3 {
        Some(w) => w.len() > 0 && text_value(w),
        None => true,
    }
    &&& forall|i: int| 0 <= i < t.4.len() ==> (#[trigger] t.4[i]).len() > 0 && text_value(t.4[i])
        && forall|j: int| 0 <= j < t.4[i].len() ==> t.4[i][j] != ','
    &&& match t.5 {
        Some(m) => mod_folder_name(m) && trim(m) == m,
        None => true,
    }
}

/// The header line of a section.
pub open spec fn header_line(title: Seq<char>) -> Seq<char> {
    "[Tool/"@ + title + seq![']']
}

/// A `key=value` line.
pub open spec fn kv_line(k: Seq<char>, v: Seq<char>) -> Seq<char> {
    k + seq!['='] + v
}

/// The key of the argument at `i`.
pub open spec fn arg_key(i: nat) -> Seq<char> {
    "arg"@ + dec(i)
}

/// The argument lines.
pub open spec fn arg_seq(args: Seq<Seq<char>>) -> Seq<Seq<char>> {
    Seq::new(args.len(), |i: int| kv_line(arg_key(i as nat), args[i]))
}

/// The optional lines of a section.
pub open spec fn tail_seq(t: ToolM) -> Seq<Seq<char>> {
    let w = match t.3 {
        Some(w) => seq![kv_line("workdir"@, w)],
        None => Seq::empty(),
    };
    let p = if t.4.len() > 0 { seq![kv_line("prereqs"@, join_commas(t.4))] } else { Seq::empty() };
    let m = match t.5 {
        Some(m) => if mod_folder_name(m) { seq![kv_line("output_mod"@, m)] } else { Seq::empty() },
        None => Seq::empty(),
    };
    w + p + m
}

/// The lines of a tool's section.
pub open spec fn section_lines(t: ToolM) -> Seq<Seq<char>> {
    seq![header_line(t.0), kv_line("exe"@, t.1)] + arg_seq(t.2) + tail_seq(t) + seq![Seq::<char>::empty()]
}

proof fn lemma_plain_keys()
    ensures
        plain_key("exe"@),
        plain_key("workdir"@),
        plain_key("prereqs"@),
        plain_key("output_mod"@),
        forall|j: int| 0 <= j < "exe"@.len() ==> "exe"@[j] != '\n',
        forall|j: int| 0 <= j < "workdir"@.len() ==> "workdir"@[j] != '\n',
        forall|j: int| 0 <= j < "prereqs"@.len() ==> "prereqs"@[j] != '\n',
        forall|j: int| 0 <= j < "output_mod"@.len() ==> "output_mod"@[j] != '\n',
{
    reveal_strlit("exe");
    reveal_strlit("workdir");
    reveal_strlit("prereqs");
    reveal_strlit("output_mod");
}

proof fn lemma_arg_key(i: nat)
    ensures
        plain_key(arg_key(i)),
        forall|j: int| 0 <= j < arg_key(i).len() ==> arg_key(i)[j] != '\n',
        is_arg_key(arg_key(i)),
        arg_key(i) != "exe"@,
        arg_key(i) != "args"@,
{
    reveal_strlit("arg");
    reveal_strlit("exe");
    reveal_strlit("args");
    crate::text::lemma_dec_digits(i);
    let k = arg_key(i);
    let d = dec(i);
    assert forall|j: int| 0 <= j < k.len() implies k[j] != '\n' && k[j] != '=' by {
        if j >= 3 {
            assert(k[j] == d[j - 3]);
            assert(crate::text::is_digit(d[j - 3]));
        }
    }
    assert(k.last() == d.last());
    assert(crate::text::is_digit(d[d.len() - 1]));
    assert forall|j: int| 3 <= j < k.len() implies #[trigger] crate::text::is_digit(k[j]) by {
        assert(k[j] == d[j - 3]);
    }
    assert(k[0] == 'a');
    assert("exe"@[0] == 'e');
    assert(k.len() != "args"@.len() || k[3] != "args"@[3]);
}

proof fn lemma_kv_chunk(k: Seq<char>, v: Seq<char>)
    requires
        plain_key(k),
        forall|j: int| 0 <= j < k.len() ==> k[j] != '\n',
        text_value(v),
    ensures
        lines(kv_text(k, v)) == seq![kv_line(k, v)],
        trim(kv_line(k, v)) == kv_line(k, v),
        key_value(kv_line(k, v)) == Some((k, v)),
        section_header(kv_line(k, v)) is None,
        kv_line(k, v)[0] == k[0],
        kv_text(k, v).last() == '\n',
{
    crate::ini::lemma_kv_text(k, v);
}

proof fn lemma_arg_lines(args: Seq<Seq<char>>)
    requires
        forall|i: int| 0 <= i < args.len() ==> text_value(#[trigger] args[i]),
    ensures
        lines(arg_lines(args)) == arg_seq(args),
        arg_lines(args).len() == 0 || arg_lines(args).last() == '\n',
    decreases args.len(),
{
    if args.len() > 0 {
        let n = (args.len() - 1) as nat;
        lemma_arg_lines(args.drop_last());
        lemma_arg_key(n);
        assert(text_value(args[args.len() - 1]));
        lemma_kv_chunk(arg_key(n), args.last());
        crate::text::lemma_lines_append(arg_lines(args.drop_last()), kv_text(arg_key(n), args.last()));
        assert(lines(arg_lines(args)) =~= arg_seq(args));
    } else {
        assert(lines(Seq::<char>::empty()) =~= Seq::<Seq<char>>::empty());
        assert(arg_seq(args) =~= Seq::<Seq<char>>::empty());
    }
}

pub(crate) proof fn lemma_join_commas(v: Seq<Seq<char>>)
    requires
        v.len() > 0,
        forall|i: int| 0 <= i < v.len() ==> (#[trigger] v[i]).len() > 0 && text_value(v[i])
            && forall|j: int| 0 <= j < v[i].len() ==> v[i][j] != ',',
    ensures
        text_value(join_commas(v)),
        split_on(join_commas(v), ',') == v,
        join_commas(v).len() > 0,
        join_commas(v)[0] == v[0][0],
        join_commas(v).last() == v.last().last(),
    decreases v.len(),
{
    let t = join_commas(v);
    if v.len() == 1 {
        crate::text::lemma_find_char_none(v[0], ',');
        assert(split_on(v[0], ',') == seq![v[0]]);
        assert(v =~= seq![v[0]]);
    } else {
        let p = join_commas(v.drop_last());
        lemma_join_commas(v.drop_last());
        let l = v.last();
        assert(l == v[v.len() - 1]);
        assert(t == p + seq![','] + l);
        assert forall|j: int| 0 <= j < t.len() implies t[j] != '\n' by {
            if j < p.len() {
            } else if j > p.len() {
                assert(t[j] == l[j - p.len() - 1]);
            }
        }
        assert(t[0] == p[0]);
        assert(t.last() == l.last());
        assert(p[0] == v[0][0]) by {
            assert(v.drop_last()[0] == v[0]);
        }
        crate::text::lemma_trim_start_is_suffix(p);
        crate::text::lemma_trim_end_is_prefix(crate::text::trim_start(l));
        crate::text::lemma_trim_end_is_prefix(crate::text::trim_start(p));
        crate::text::lemma_trim_start_is_suffix(l);
        assert(!crate::text::is_ws(t[0]));
        assert(!crate::text::is_ws(t.last()));
        crate::text::lemma_trim_fixed(t);
        crate::text::lemma_split_on_append(p, l, ',');
        crate::text::lemma_find_char_none(l, ',');
        assert(split_on(l, ',') == seq![l]);
        assert(v.drop_last() + seq![l] =~= v);
    }
}

proof fn lemma_tail_lines(t: ToolM)
    requires
        writable_tool(t),
    ensures
        lines(tail_lines(t)) == tail_seq(t),
        tail_lines(t).len() == 0 || tail_lines(t).last() == '\n',
{
    lemma_plain_keys();
    let w: Seq<char> = match t.3 {
        Some(w) => kv_text("workdir"@, w),
        None => Seq::empty(),
    };
    let p: Seq<char> = if t.4.len() > 0 { kv_text("prereqs"@, join_commas(t.4)) } else { Seq::empty() };
    let m: Seq<char> = match t.5 {
        Some(m) => if mod_folder_name(m) { kv_text("output_mod"@, m) } else { Seq::empty() },
        None => Seq::empty(),
    };
    let lw: Seq<Seq<char>> = match t.3 {
        Some(w) => seq![kv_line("workdir"@, w)],
        None => Seq::empty(),
    };
    let lp: Seq<Seq<char>> = if t.4.len() > 0 { seq![kv_line("prereqs"@, join_commas(t.4))] } else { Seq::empty() };
    let lm: Seq<Seq<char>> = match t.5 {
        Some(m) => if mod_folder_name(m) { seq![kv_line("output_mod"@, m)] } else { Seq::empty() },
        None => Seq::empty(),
    };
    assert(lines(Seq::<char>::empty()) =~= Seq::<Seq<char>>::empty());
    match t.3 {
        Some(x) => lemma_kv_chunk("workdir"@, x),
        None => {},
    }
    if t.4.len() > 0 {
        lemma_join_commas(t.4);
        lemma_kv_chunk("prereqs"@, join_commas(t.4));
    }
    match t.5 {
        Some(x) => {
            assert forall|j: int| 0 <= j < x.len() implies x[j] != '\n' by {
                assert(trim(x) == x);
                if x[j] == '\n' {
                    assert(is_control(trim(x)[j]));
                }
            }
            lemma_kv_chunk("output_mod"@, x);
        },
        None => {},
    }
    assert(lines(w) == lw);
    assert(lines(p) == lp);
    assert(lines(m) == lm);
    crate::text::lemma_lines_append(w, p);
    crate::text::lemma_lines_append(w + p, m);
    assert(tail_lines(t) == w + p + m);
    assert(tail_seq(t) == lw + lp + lm);
}

#[verifier::spinoff_prover]
proof fn lemma_section_lines(t: ToolM)
    requires
        writable_tool(t),
    ensures
        lines(tool_section(t)) == section_lines(t),
        tool_section(t).last() == '\n',
{
    lemma_plain_keys();
    reveal_strlit("[Tool/");
    let title = t.0;
    let h = header_line(title);
    assert(header_text(title) =~= h + seq!['\n']);
    assert forall|j: int| 0 <= j < h.len() implies h[j] != '\n' by {
        if 6 <= j < 6 + title.len() {
            assert(h[j] == title[j - 6]);
            if title[j - 6] == '\n' {
                assert(is_control(title[j - 6]));
            }
        }
    }
    crate::text::lemma_lines_one(h);
    assert(crate::text::strip_cr(h) == h);
    lemma_kv_chunk("exe"@, t.1);
    lemma_arg_lines(t.2);
    lemma_tail_lines(t);
    let a = header_text(title);
    let b = a + kv_text("exe"@, t.1);
    let c = b + arg_lines(t.2);
    let d = c + tail_lines(t);
    crate::text::lemma_lines_append(a, kv_text("exe"@, t.1));
    crate::text::lemma_lines_append(b, arg_lines(t.2));
    assert(c.len() > 0 && c.last() == '\n');
    crate::text::lemma_lines_append(c, tail_lines(t));
    assert(d.len() > 0 && d.last() == '\n');
    crate::text::lemma_lines_append(d, seq!['\n']);
    crate::text::lemma_lines_one(Seq::<char>::empty());
    assert(Seq::<char>::empty() + seq!['\n'] =~= seq!['\n']);
    assert(crate::text::strip_cr(Seq::<char>::empty()) =~= Seq::<char>::empty());
    assert(tool_section(t) == d + seq!['\n']);
    assert(lines(tool_section(t)) =~= section_lines(t));
}

proof fn lemma_fold_kv(q: Seq<Seq<char>>, k: Seq<char>, v: Seq<char>)
    requires
        tools_fold(q).len() > 0,
        plain_key(k),
        forall|j: int| 0 <= j < k.len() ==> k[j] != '\n',
        text_value(v),
    ensures
        tools_fold(q.push(kv_line(k, v))) == tools_fold(q).update(
            tools_fold(q).len() - 1,
            apply_key(tools_fold(q).last(), k, v),
        ),
{
    lemma_kv_chunk(k, v);
    assert(q.push(kv_line(k, v)).drop_last() =~= q);
}

pub(crate) proof fn lemma_comma_items_fixed(ps: Seq<Seq<char>>)
    requires
        forall|i: int| 0 <= i < ps.len() ==> (#[trigger] ps[i]).len() > 0 && text_value(ps[i]),
    ensures
        comma_items(ps) == ps,
    decreases ps.len(),
{
    if ps.len() > 0 {
        lemma_comma_items_fixed(ps.drop_last());
        assert(text_value(ps[ps.len() - 1]));
        assert(ps.drop_last().push(ps.last()) =~= ps);
    }
}

proof fn lemma_fold_header(q: Seq<Seq<char>>, title: Seq<char>)
    requires
        title.len() > 0,
        trim(title) == title,
    ensures
        tools_fold(q.push(header_line(title))) == tools_fold(q).push(
            (title, Seq::<char>::empty(), Seq::<Seq<char>>::empty(), None::<Seq<char>>, Seq::<Seq<char>>::empty(), None::<Seq<char>>),
        ),
{
    reveal_strlit("[Tool/");
    let h = header_line(title);
    assert(q.push(h).drop_last() =~= q);
    crate::text::lemma_trim_start_is_suffix(title);
    crate::text::lemma_trim_end_is_prefix(crate::text::trim_start(title));
    assert(!crate::text::is_ws(title.last()));
    assert(h[0] == '[');
    assert(h.last() == ']');
    crate::text::lemma_trim_fixed(h);
    let inner = h.subrange(1, h.len() - 1);
    assert(inner =~= tool_prefix() + title);
    assert(inner.last() == title.last());
    crate::text::lemma_trim_fixed(inner);
    assert(section_header(h) == Some(inner));
    assert(inner.take(tool_prefix().len() as int) =~= tool_prefix());
    assert(inner.skip(tool_prefix().len() as int) =~= title);
}

proof fn lemma_fold_args(q: Seq<Seq<char>>, t0: ToolM, args: Seq<Seq<char>>, j: int)
    requires
        tools_fold(q).len() > 0,
        tools_fold(q).last() == t0,
        t0.2.len() == 0,
        forall|i: int| 0 <= i < args.len() ==> text_value(#[trigger] args[i]),
        0 <= j <= args.len(),
    ensures
        tools_fold(q + arg_seq(args).take(j)) == tools_fold(q).update(
            tools_fold(q).len() - 1,
            (t0.0, t0.1, args.take(j), t0.3, t0.4, t0.5),
        ),
    decreases j,
{
    let out = tools_fold(q);
    if j == 0 {
        assert(q + arg_seq(args).take(0) =~= q);
        assert(args.take(0) =~= t0.2);
        assert(out.update(out.len() - 1, (t0.0, t0.1, args.take(0), t0.3, t0.4, t0.5)) =~= out);
    } else {
        lemma_fold_args(q, t0, args, j - 1);
        let prev = q + arg_seq(args).take(j - 1);
        assert(q + arg_seq(args).take(j) =~= prev.push(kv_line(arg_key((j - 1) as nat), args[j - 1])));
        lemma_arg_key((j - 1) as nat);
        assert(text_value(args[j - 1]));
        lemma_fold_kv(prev, arg_key((j - 1) as nat), args[j - 1]);
        assert(args.take(j - 1).push(args[j - 1]) =~= args.take(j));
        assert(tools_fold(q + arg_seq(args).take(j)) =~= out.update(out.len() - 1, (t0.0, t0.1, args.take(j), t0.3, t0.4, t0.5)));
    }
}

proof fn lemma_key_words()
    ensures
        "workdir"@ != "exe"@,
        "workdir"@ != "args"@,
        !is_arg_key("workdir"@),
        "prereqs"@ != "exe"@,
        "prereqs"@ != "args"@,
        "prereqs"@ != "workdir"@,
        !is_arg_key("prereqs"@),
        "output_mod"@ != "exe"@,
        "output_mod"@ != "args"@,
        "output_mod"@ != "workdir"@,
        "output_mod"@ != "prereqs"@,
        !is_arg_key("output_mod"@),
{
    reveal_strlit("workdir");
    reveal_strlit("exe");
    reveal_strlit("args");
    reveal_strlit("prereqs");
    reveal_strlit("output_mod");
    assert("workdir"@.len() != "exe"@.len());
    assert("workdir"@[0] != "args"@[0]);
    assert("prereqs"@.len() != "exe"@.len());
    assert("prereqs"@[0] != "args"@[0]);
    assert("prereqs"@[0] != "workdir"@[0]);
    assert("output_mod"@.len() != "exe"@.len());
    assert("output_mod"@[0] != "args"@[0]);
    assert("output_mod"@[0] != "workdir"@[0]);
    assert("output_mod"@[0] != "prereqs"@[0]);
}

/// The fold over one written section adds exactly that tool.
#[verifier::spinoff_prover]
proof fn lemma_fold_section(q: Seq<Seq<char>>, t: ToolM)
    requires
        writable_tool(t),
    ensures
        tools_fold(q + section_lines(t)) == tools_fold(q).push(t),
{
    lemma_plain_keys();
    lemma_key_words();
    let base = tools_fold(q);
    let blank = (t.0, Seq::<char>::empty(), Seq::<Seq<char>>::empty(), None::<Seq<char>>, Seq::<Seq<char>>::empty(), None::<Seq<char>>);
    let q1 = q.push(header_line(t.0));
    lemma_fold_header(q, t.0);
    assert(tools_fold(q1) == base.push(blank));
    let q2 = q1.push(kv_line("exe"@, t.1));
    lemma_fold_kv(q1, "exe"@, t.1);
    let t2 = (t.0, t.1, Seq::<Seq<char>>::empty(), None::<Seq<char>>, Seq::<Seq<char>>::empty(), None::<Seq<char>>);
    assert(tools_fold(q2) =~= base.push(t2));
    let q3 = q2 + arg_seq(t.2);
    lemma_fold_args(q2, t2, t.2, t.2.len() as int);
    assert(arg_seq(t.2).take(t.2.len() as int) =~= arg_seq(t.2));
    assert(t.2.take(t.2.len() as int) =~= t.2);
    let t3 = (t.0, t.1, t.2, None::<Seq<char>>, Seq::<Seq<char>>::empty(), None::<Seq<char>>);
    assert(tools_fold(q3) =~= base.push(t3));
    // The working directory.
    let q4 = match t.3 {
        Some(w) => q3.push(kv_line("workdir"@, w)),
        None => q3,
    };
    let t4 = (t.0, t.1, t.2, t.3, Seq::<Seq<char>>::empty(), None::<Seq<char>>);
    match t.3 {
        Some(w) => {
            lemma_fold_kv(q3, "workdir"@, w);
            assert(tools_fold(q4) =~= base.push(t4));
        },
        None => {},
    }
    // The prerequisites.
    let q5 = if t.4.len() > 0 { q4.push(kv_line("prereqs"@, join_commas(t.4))) } else { q4 };
    let t5 = (t.0, t.1, t.2, t.3, t.4, None::<Seq<char>>);
    if t.4.len() > 0 {
        lemma_join_commas(t.4);
        lemma_comma_items_fixed(t.4);
        lemma_fold_kv(q4, "prereqs"@, join_commas(t.4));
        assert(tools_fold(q5) =~= base.push(t5));
    } else {
        assert(t.4 =~= Seq::<Seq<char>>::empty());
    }
    // The output mod.
    let q6 = match t.5 {
        Some(m) => q5.push(kv_line("output_mod"@, m)),
        None => q5,
    };
    match t.5 {
        Some(m) => {
            assert forall|j: int| 0 <= j < m.len() implies m[j] != '\n' by {
                if m[j] == '\n' {
                    assert(is_control(trim(m)[j]));
                }
            }
            lemma_fold_kv(q5, "output_mod"@, m);
            assert(tools_fold(q6) =~= base.push(t));
        },
        None => {},
    }
    assert(tools_fold(q6) == base.push(t));
    // The blank line that ends the section.
    let q7 = q6.push(Seq::<char>::empty());
    assert(q7.drop_last() =~= q6);
    assert(trim(Seq::<char>::empty()) =~= Seq::<char>::empty()) by {
        assert(crate::text::trim_start(Seq::<char>::empty()) =~= Seq::<char>::empty());
    }
    assert(crate::text::split_once(Seq::<char>::empty(), '=') is None) by {
        crate::text::lemma_find_char_none(Seq::<char>::empty(), '=');
    }
    assert(tools_fold(q7) == base.push(t));
    let tl = tail_seq(t);
    assert(q7 =~= q + section_lines(t));
}

proof fn lemma_fold_written(ts: Seq<ToolM>)
    requires
        forall|i: int| 0 <= i < ts.len() ==> writable_tool(#[trigger] ts[i]),
    ensures
        tools_fold(lines(write_tools_spec(ts))) == ts,
        write_tools_spec(ts).len() == 0 || write_tools_spec(ts).last() == '\n',
    decreases ts.len(),
{
    if ts.len() == 0 {
        assert(lines(Seq::<char>::empty()) =~= Seq::<Seq<char>>::empty());
    } else {
        let t = ts.last();
        assert(writable_tool(ts[ts.len() - 1]));
        lemma_fold_written(ts.drop_last());
        lemma_section_lines(t);
        let w = write_tools_spec(ts.drop_last());
        crate::text::lemma_lines_append(w, tool_section(t));
        lemma_fold_section(lines(w), t);
        assert(ts.drop_last().push(t) =~= ts);
    }
}

proof fn lemma_with_exe_all(ts: Seq<ToolM>)
    requires
        forall|i: int| 0 <= i < ts.len() ==> (#[trigger] ts[i]).1.len() > 0,
    ensures
        with_exe(ts) == ts,
    decreases ts.len(),
{
    if ts.len() > 0 {
        lemma_with_exe_all(ts.drop_last());
        assert(ts[ts.len() - 1].1.len() > 0);
        assert(ts.drop_last().push(ts.last()) =~= ts);
    }
}

/// Tools written with [`write_tools`] read back with [`read_tools`] as the
/// same list, arguments with spaces included, when each is writable: its
/// title trimmed and free of control characters, its executable given, and
/// each field fit for its line.
pub proof fn lemma_tools_round_trip(ts: Seq<ToolM>)
    requires
        forall|i: int| 0 <= i < ts.len() ==> writable_tool(#[trigger] ts[i]),
    ensures
        read_tools_spec(write_tools_spec(ts)) == ts,
{
    lemma_fold_written(ts);
    assert forall|i: int| 0 <= i < ts.len() implies (#[trigger] ts[i]).1.len() > 0 by {
        assert(writable_tool(ts[i]));
    }
    lemma_with_exe_all(ts);
}

/// Whether `write_tools` writes a tool at all: its trimmed title is neither
/// empty nor holds a control character.
pub open spec fn written_tool(t: ToolM) -> bool {
    trim(t.0).len() > 0 && !has_control(trim(t.0))
}

/// A tool as `write_tools` writes it: the title trimmed, and an `output_mod`
/// that is no mod folder name left out.
pub open spec fn as_written(t: ToolM) -> ToolM {
    (trim(t.0), t.1, t.2, t.3, t.4, match t.5 {
        Some(m) => if mod_folder_name(m) { Some(m) } else { None },
        None => None,
    })
}

/// The tools `write_tools` writes, as it writes them, in order.
pub open spec fn written_tools(ts: Seq<ToolM>) -> Seq<ToolM>
    decreases ts.len(),
{
    if ts.len() == 0 {
        Seq::empty()
    } else {
        let p = written_tools(ts.drop_last());
        if written_tool(ts.last()) { p.push(as_written(ts.last())) } else { p }
    }
}

proof fn lemma_section_as_written(t: ToolM)
    ensures
        tool_section(t) == (if written_tool(t) { tool_section(as_written(t)) } else { Seq::empty() }),
{
    crate::text::lemma_trim_idem(t.0);
}

proof fn lemma_write_as_written(ts: Seq<ToolM>)
    ensures
        write_tools_spec(ts) == write_tools_spec(written_tools(ts)),
        forall|k: int| 0 <= k < written_tools(ts).len() ==> exists|i: int|
            0 <= i < ts.len() && written_tool(ts[i]) && #[trigger] written_tools(ts)[k] == as_written(ts[i]),
    decreases ts.len(),
{
    if ts.len() > 0 {
        let q = ts.drop_last();
        lemma_write_as_written(q);
        lemma_section_as_written(ts.last());
        let p = written_tools(q);
        if written_tool(ts.last()) {
            let l = p.push(as_written(ts.last()));
            assert(l.drop_last() =~= p);
            assert forall|k: int| 0 <= k < l.len() implies exists|i: int|
                0 <= i < ts.len() && written_tool(ts[i]) && #[trigger] l[k] == as_written(ts[i]) by {
                if k < p.len() {
                    assert(l[k] == p[k]);
                    let i = choose|i: int| 0 <= i < q.len() && written_tool(q[i]) && p[k] == as_written(q[i]);
                    assert(q[i] == ts[i]);
                } else {
                    assert(l[k] == as_written(ts[ts.len() - 1]));
                }
            }
        } else {
            assert(write_tools_spec(ts) =~= write_tools_spec(q));
        }
    }
}

/// Whatever `write_tools` writes reads back with `read_tools` as exactly the
/// tools it wrote, in order: each tool whose trimmed title is empty or holds a
/// control character is left out, titles come back trimmed, and an
/// `output_mod` that is no mod folder name comes back as none. The other
/// fields must fit a line of `tools.ini`: trimmed, on one line, an `exe`, no
/// empty working directory, and prerequisites that are not empty and hold no
/// comma.
pub proof fn lemma_tools_read_what_was_written(ts: Seq<ToolM>)
    requires
        forall|i: int| 0 <= i < ts.len() && written_tool(#[trigger] ts[i]) ==> writable_tool(as_written(ts[i])),
    ensures
        read_tools_spec(write_tools_spec(ts)) == written_tools(ts),
{
    lemma_write_as_written(ts);
    let w = written_tools(ts);
    assert forall|k: int| 0 <= k < w.len() implies writable_tool(#[trigger] w[k]) by {
        let i = choose|i: int| 0 <= i < ts.len() && written_tool(ts[i]) && w[k] == as_written(ts[i]);
    }
    lemma_tools_round_trip(w);
}

} // verus!
