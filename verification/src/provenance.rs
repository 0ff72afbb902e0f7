//! Generated-output receipts: what a tool run recorded about its inputs, and
//! the conservative comparison that tells whether those inputs have drifted
//! since. Reading the receipt store and stat-ing files happen outside; this
//! module decides on the values they give.

use vstd::prelude::*;

use crate::meta::strs_view;
use crate::archive::key_lt;
use crate::text::{eq_ic, eq_ic_str, eq_str, split_on};
use crate::tools::{ov, tools_view, Tool, ToolM};

verus! {

/// One input mod of a tool run: its name, its recorded version and the
/// fingerprints of its installed files.
#[derive(Debug, Clone)]
pub struct GeneratedInput {
    pub name: String,
    pub version: Option<String>,
    pub installed_files: Vec<(u64, u64)>,
}

/// An input as `(name, version, installed_files)`.
pub type InputM = (Seq<char>, Option<Seq<char>>, Seq<(u64, u64)>);

impl GeneratedInput {
    pub open spec fn model(&self) -> InputM {
        (self.name@, ov(self.version), self.installed_files@)
    }
}

/// The models of a list of inputs.
pub open spec fn inputs_view(v: Seq<GeneratedInput>) -> Seq<InputM> {
    v.map_values(|i: GeneratedInput| i.model())
}

/// The fingerprint of a tool's executable: its path, size and modification
/// time as `(seconds, nanoseconds)` since the epoch. Never a guessed version.
#[derive(Debug, Clone)]
pub struct ToolExecutable {
    pub path: String,
    pub size: u64,
    pub modified_secs: u64,
    pub modified_nanos: u32,
}

/// A fingerprint as `(path, size, (seconds, nanoseconds))`.
pub type ExecutableM = (Seq<char>, u64, (u64, u32));

impl ToolExecutable {
    pub open spec fn model(&self) -> ExecutableM {
        (self.path@, self.size, (self.modified_secs, self.modified_nanos))
    }
}

/// What a tool run recorded before it started.
#[derive(Debug, Clone)]
pub struct GeneratedReceipt {
    /// The run's id.
    pub id: String,
    /// The tool's title.
    pub tool: String,
    /// The command, verbatim.
    pub command: Vec<String>,
    /// The executable's fingerprint, when it was a file.
    pub executable: Option<ToolExecutable>,
    /// The configured tool's `(exe, args)`, when the tool is configured.
    pub tool_preset: Option<(String, Vec<String>)>,
    /// The active profile.
    pub profile: String,
    /// Seconds since the epoch when the run started.
    pub started_at: u64,
    /// The active mods, in order.
    pub inputs: Vec<GeneratedInput>,
    /// The plugins and whether each was enabled, in order.
    pub plugins: Vec<(String, bool)>,
}

/// An optional tool preset as `(exe, args)`.
pub type PresetM = Option<(Seq<char>, Seq<Seq<char>>)>;

/// A receipt as `(id, tool, command, executable, tool_preset, profile,
/// started_at, inputs, plugins)`.
pub type ReceiptM = (
    Seq<char>,
    Seq<char>,
    Seq<Seq<char>>,
    Option<ExecutableM>,
    PresetM,
    Seq<char>,
    u64,
    Seq<InputM>,
    Seq<(Seq<char>, bool)>,
);

/// The view of an optional tool preset.
pub open spec fn preset_view(p: Option<(String, Vec<String>)>) -> PresetM {
    match p {
        Some((e, a)) => Some((e@, strs_view(a@))),
        None => None,
    }
}

/// The views of `(plugin, enabled)` pairs.
pub open spec fn plugins_view(v: Seq<(String, bool)>) -> Seq<(Seq<char>, bool)> {
    v.map_values(|p: (String, bool)| (p.0@, p.1))
}

/// The views of produced files as `(owner mod, path)`, no owner being
/// Overwrite.
pub open spec fn produced_view(v: Seq<(Option<String>, String)>) -> Seq<(Option<Seq<char>>, Seq<char>)> {
    v.map_values(|p: (Option<String>, String)| (ov(p.0), p.1@))
}

impl View for GeneratedReceipt {
    type V = ReceiptM;

    open spec fn view(&self) -> ReceiptM {
        (
            self.id@,
            self.tool@,
            strs_view(self.command@),
            match self.executable {
                Some(e) => Some(e.model()),
                None => None,
            },
            preset_view(self.tool_preset),
            self.profile@,
            self.started_at,
            inputs_view(self.inputs@),
            plugins_view(self.plugins@),
        )
    }
}

/// The preset of the first configured tool whose title is `title` ignoring
/// ASCII case: its `(exe, args)`.
pub open spec fn preset_spec(tools: Seq<ToolM>, title: Seq<char>) -> PresetM
    decreases tools.len(),
{
    if tools.len() == 0 {
        None
    } else if eq_ic(tools[0].0, title) {
        Some((tools[0].1, tools[0].2))
    } else {
        preset_spec(tools.drop_first(), title)
    }
}

/// The configured `(exe, args)` of the tool titled `title` (ignoring ASCII
/// case; the first such tool counts), as a run records it.
pub fn tool_preset(tools: &[Tool], title: &str) -> (r: Option<(String, Vec<String>)>)
    ensures
        preset_view(r) == preset_spec(tools_view(tools@), title@),
{
    let ghost tv = tools_view(tools@);
    let mut i: usize = 0;
    assert(tv.skip(0) =~= tv);
    while i < tools.len()
        invariant
            i <= tools@.len(),
            tv == tools_view(tools@),
            preset_spec(tv, title@) == preset_spec(tv.skip(i as int), title@),
        decreases tools.len() - i,
    {
        assert(tv.skip(i as int)[0] == tools@[i as int].model());
        assert(tv.skip(i as int).drop_first() =~= tv.skip(i + 1));
        if eq_ic_str(tools[i].title.as_str(), title) {
            let args = clone_strs(&tools[i].args);
            return Some((tools[i].exe.clone(), args));
        }
        i = i + 1;
    }
    None
}

fn clone_strs(v: &Vec<String>) -> (r: Vec<String>)
    ensures
        strs_view(r@) == strs_view(v@),
{
    let mut out: Vec<String> = Vec::new();
    let mut i: usize = 0;
    while i < v.len()
        invariant
            i <= v@.len(),
            strs_view(out@) == strs_view(v@).take(i as int),
        decreases v.len() - i,
    {
        let ghost before = strs_view(out@);
        out.push(v[i].clone());
        assert(strs_view(out@) =~= before.push(v@[i as int]@));
        assert(strs_view(v@).take(i + 1) =~= strs_view(v@).take(i as int).push(v@[i as int]@));
        i = i + 1;
    }
    assert(strs_view(v@).take(i as int) =~= strs_view(v@));
    out
}

/// Whether the run recorded an input of this name (ignoring ASCII case).
pub open spec fn recorded_input(rec: Seq<InputM>, name: Seq<char>) -> bool {
    exists|j: int| 0 <= j < rec.len() && eq_ic(#[trigger] rec[j].0, name)
}

/// Whether one of the run's produced files now lives in a mod of this name
/// (ignoring ASCII case).
pub open spec fn produced_into(produced: Seq<(Option<Seq<char>>, Seq<char>)>, name: Seq<char>) -> bool {
    exists|j: int|
        0 <= j < produced.len() && (#[trigger] produced[j]).0 is Some && eq_ic(produced[j].0->0, name)
}

/// A path of one component: not empty and without a `/`.
pub open spec fn top_level(p: Seq<char>) -> bool {
    p.len() > 0 && forall|j: int| 0 <= j < p.len() ==> p[j] != '/'
}

/// Whether the run recorded a plugin of this name (ignoring ASCII case).
pub open spec fn recorded_plugin(rec: Seq<(Seq<char>, bool)>, name: Seq<char>) -> bool {
    exists|j: int| 0 <= j < rec.len() && eq_ic(#[trigger] rec[j].0, name)
}

/// Whether one of the run's produced files is a top-level file of this name
/// (ignoring ASCII case): a plugin the run itself made.
pub open spec fn produced_plugin(produced: Seq<(Option<Seq<char>>, Seq<char>)>, name: Seq<char>) -> bool {
    exists|j: int| 0 <= j < produced.len() && top_level((#[trigger] produced[j]).1) && eq_ic(produced[j].1, name)
}

/// The current inputs that count: every one the run recorded, and any other
/// that is not a mod the run's own output was moved into.
pub open spec fn kept_inputs(now: Seq<InputM>, rec: Seq<InputM>, produced: Seq<(Option<Seq<char>>, Seq<char>)>) -> Seq<InputM>
    decreases now.len(),
{
    if now.len() == 0 {
        Seq::empty()
    } else {
        let p = kept_inputs(now.drop_last(), rec, produced);
        let i = now.last();
        if recorded_input(rec, i.0) || !produced_into(produced, i.0) { p.push(i) } else { p }
    }
}

/// The current plugins that count: every one the run recorded, and any other
/// that is not a plugin the run itself produced.
pub open spec fn kept_plugins(
    now: Seq<(Seq<char>, bool)>,
    rec: Seq<(Seq<char>, bool)>,
    produced: Seq<(Option<Seq<char>>, Seq<char>)>,
) -> Seq<(Seq<char>, bool)>
    decreases now.len(),
{
    if now.len() == 0 {
        Seq::empty()
    } else {
        let p = kept_plugins(now.drop_last(), rec, produced);
        let x = now.last();
        if recorded_plugin(rec, x.0) || !produced_plugin(produced, x.0) { p.push(x) } else { p }
    }
}

/// Drift: another active profile; another configured preset for the run's
/// command; the inputs that count differ (in content or order) from the recorded
/// ones; the plugins that count differ from the recorded ones; or the
/// recorded executable is no longer a file of the same size and time.
pub open spec fn drift_spec(
    r: ReceiptM,
    active_profile: Seq<char>,
    preset_now: PresetM,
    inputs_now: Seq<InputM>,
    plugins_now: Seq<(Seq<char>, bool)>,
    produced: Seq<(Option<Seq<char>>, Seq<char>)>,
    exe_now: Option<(u64, u64, u32)>,
) -> bool {
    ||| active_profile != r.5
    ||| preset_now != r.4
    ||| kept_inputs(inputs_now, r.7, produced) != r.7
    ||| kept_plugins(plugins_now, r.8, produced) != r.8
    ||| match r.3 {
        Some(e) => exe_now != Some((e.1, e.2.0, e.2.1)),
        None => false,
    }
}

fn recorded_input_exec(rec: &Vec<GeneratedInput>, name: &str) -> (b: bool)
    ensures
        b == recorded_input(inputs_view(rec@), name@),
{
    let ghost rv = inputs_view(rec@);
    let mut i: usize = 0;
    while i < rec.len()
        invariant
            i <= rec@.len(),
            rv == inputs_view(rec@),
            forall|j: int| 0 <= j < i ==> !eq_ic(#[trigger] rv[j].0, name@),
        decreases rec.len() - i,
    {
        assert(rv[i as int] == rec@[i as int].model());
        if eq_ic_str(rec[i].name.as_str(), name) {
            assert(eq_ic(rv[i as int].0, name@));
            return true;
        }
        i = i + 1;
    }
    false
}

fn recorded_plugin_exec(rec: &Vec<(String, bool)>, name: &str) -> (b: bool)
    ensures
        b == recorded_plugin(plugins_view(rec@), name@),
{
    let ghost rv = plugins_view(rec@);
    let mut i: usize = 0;
    while i < rec.len()
        invariant
            i <= rec@.len(),
            rv == plugins_view(rec@),
            forall|j: int| 0 <= j < i ==> !eq_ic(#[trigger] rv[j].0, name@),
        decreases rec.len() - i,
    {
        assert(rv[i as int] == (rec@[i as int].0@, rec@[i as int].1));
        if eq_ic_str(rec[i].0.as_str(), name) {
            assert(eq_ic(rv[i as int].0, name@));
            return true;
        }
        i = i + 1;
    }
    false
}

fn produced_into_exec(produced: &[(Option<String>, String)], name: &str) -> (b: bool)
    ensures
        b == produced_into(produced_view(produced@), name@),
{
    let ghost pv = produced_view(produced@);
    let mut i: usize = 0;
    while i < produced.len()
        invariant
            i <= produced@.len(),
            pv == produced_view(produced@),
            forall|j: int| 0 <= j < i ==> !((#[trigger] pv[j]).0 is Some && eq_ic(pv[j].0->0, name@)),
        decreases produced.len() - i,
    {
        assert(pv[i as int] == (ov(produced@[i as int].0), produced@[i as int].1@));
        match &produced[i].0 {
            Some(m) => {
                if eq_ic_str(m.as_str(), name) {
                    return true;
                }
            },
            None => {},
        }
        i = i + 1;
    }
    false
}

fn top_level_exec(p: &str) -> (b: bool)
    ensures
        b == top_level(p@),
{
    let v = crate::text::chars_of(p);
    v.len() > 0 && !crate::text::contains_char(&v, '/')
}

fn produced_plugin_exec(produced: &[(Option<String>, String)], name: &str) -> (b: bool)
    ensures
        b == produced_plugin(produced_view(produced@), name@),
{
    let ghost pv = produced_view(produced@);
    let mut i: usize = 0;
    while i < produced.len()
        invariant
            i <= produced@.len(),
            pv == produced_view(produced@),
            forall|j: int| 0 <= j < i ==> !(top_level((#[trigger] pv[j]).1) && eq_ic(pv[j].1, name@)),
        decreases produced.len() - i,
    {
        assert(pv[i as int] == (ov(produced@[i as int].0), produced@[i as int].1@));
        if top_level_exec(produced[i].1.as_str()) && eq_ic_str(produced[i].1.as_str(), name) {
            return true;
        }
        i = i + 1;
    }
    false
}

fn eq_opt_str(a: &Option<String>, b: &Option<String>) -> (r: bool)
    ensures
        r == (ov(*a) == ov(*b)),
{
    match (a, b) {
        (Some(x), Some(y)) => eq_str(x.as_str(), y.as_str()),
        (None, None) => true,
        _ => false,
    }
}

fn eq_strs(a: &Vec<String>, b: &Vec<String>) -> (r: bool)
    ensures
        r == (strs_view(a@) == strs_view(b@)),
{
    let ghost av = strs_view(a@);
    let ghost bv = strs_view(b@);
    if a.len() != b.len() {
        assert(av.len() != bv.len());
        return false;
    }
    let mut i: usize = 0;
    while i < a.len()
        invariant
            i <= a@.len(),
            a@.len() == b@.len(),
            av == strs_view(a@),
            bv == strs_view(b@),
            forall|j: int| 0 <= j < i ==> av[j] == bv[j],
        decreases a.len() - i,
    {
        if !eq_str(a[i].as_str(), b[i].as_str()) {
            assert(av[i as int] != bv[i as int]);
            return false;
        }
        i = i + 1;
    }
    assert(av =~= bv);
    true
}

fn eq_stamps(a: &Vec<(u64, u64)>, b: &Vec<(u64, u64)>) -> (r: bool)
    ensures
        r == (a@ == b@),
{
    if a.len() != b.len() {
        return false;
    }
    let mut i: usize = 0;
    while i < a.len()
        invariant
            i <= a@.len(),
            a@.len() == b@.len(),
            forall|j: int| 0 <= j < i ==> a@[j] == b@[j],
        decreases a.len() - i,
    {
        if a[i].0 != b[i].0 || a[i].1 != b[i].1 {
            assert(a@[i as int] != b@[i as int]);
            return false;
        }
        i = i + 1;
    }
    assert(a@ =~= b@);
    true
}

fn eq_inputs(a: &[GeneratedInput], b: &Vec<GeneratedInput>) -> (r: bool)
    ensures
        r == (inputs_view(a@) == inputs_view(b@)),
{
    let ghost av = inputs_view(a@);
    let ghost bv = inputs_view(b@);
    if a.len() != b.len() {
        assert(av.len() != bv.len());
        return false;
    }
    let mut i: usize = 0;
    while i < a.len()
        invariant
            i <= a@.len(),
            a@.len() == b@.len(),
            av == inputs_view(a@),
            bv == inputs_view(b@),
            forall|j: int| 0 <= j < i ==> av[j] == bv[j],
        decreases a.len() - i,
    {
        assert(av[i as int] == a@[i as int].model());
        assert(bv[i as int] == b@[i as int].model());
        let same = eq_str(a[i].name.as_str(), b[i].name.as_str()) && eq_opt_str(&a[i].version, &b[i].version)
            && eq_stamps(&a[i].installed_files, &b[i].installed_files);
        if !same {
            return false;
        }
        i = i + 1;
    }
    assert(av =~= bv);
    true
}

fn eq_plugins(a: &[(String, bool)], b: &Vec<(String, bool)>) -> (r: bool)
    ensures
        r == (plugins_view(a@) == plugins_view(b@)),
{
    let ghost av = plugins_view(a@);
    let ghost bv = plugins_view(b@);
    if a.len() != b.len() {
        assert(av.len() != bv.len());
        return false;
    }
    let mut i: usize = 0;
    while i < a.len()
        invariant
            i <= a@.len(),
            a@.len() == b@.len(),
            av == plugins_view(a@),
            bv == plugins_view(b@),
            forall|j: int| 0 <= j < i ==> av[j] == bv[j],
        decreases a.len() - i,
    {
        assert(av[i as int] == (a@[i as int].0@, a@[i as int].1));
        assert(bv[i as int] == (b@[i as int].0@, b@[i as int].1));
        if !(eq_str(a[i].0.as_str(), b[i].0.as_str()) && a[i].1 == b[i].1) {
            return false;
        }
        i = i + 1;
    }
    assert(av =~= bv);
    true
}

fn eq_preset(a: &Option<(String, Vec<String>)>, b: &Option<(String, Vec<String>)>) -> (r: bool)
    ensures
        r == (preset_view(*a) == preset_view(*b)),
{
    match (a, b) {
        (Some((ea, xa)), Some((eb, xb))) => eq_str(ea.as_str(), eb.as_str()) && eq_strs(xa, xb),
        (None, None) => true,
        _ => false,
    }
}

fn copy_input(x: &GeneratedInput) -> (c: GeneratedInput)
    ensures
        c.model() == x.model(),
{
    let version = match &x.version {
        Some(v) => Some(v.clone()),
        None => None,
    };
    let mut files: Vec<(u64, u64)> = Vec::new();
    let mut i: usize = 0;
    while i < x.installed_files.len()
        invariant
            i <= x.installed_files@.len(),
            files@ == x.installed_files@.take(i as int),
        decreases x.installed_files.len() - i,
    {
        let (a, b) = x.installed_files[i];
        files.push((a, b));
        assert(files@ =~= x.installed_files@.take(i + 1));
        i = i + 1;
    }
    assert(x.installed_files@.take(i as int) =~= x.installed_files@);
    GeneratedInput { name: x.name.clone(), version, installed_files: files }
}

fn kept_inputs_exec(
    now: &[GeneratedInput],
    rec: &Vec<GeneratedInput>,
    produced: &[(Option<String>, String)],
) -> (r: Vec<GeneratedInput>)
    ensures
        inputs_view(r@) == kept_inputs(inputs_view(now@), inputs_view(rec@), produced_view(produced@)),
{
    let ghost nv = inputs_view(now@);
    let ghost rv = inputs_view(rec@);
    let ghost pv = produced_view(produced@);
    let mut out: Vec<GeneratedInput> = Vec::new();
    let mut i: usize = 0;
    while i < now.len()
        invariant
            i <= now@.len(),
            nv == inputs_view(now@),
            rv == inputs_view(rec@),
            pv == produced_view(produced@),
            inputs_view(out@) == kept_inputs(nv.take(i as int), rv, pv),
        decreases now.len() - i,
    {
        assert(nv.take(i + 1).drop_last() =~= nv.take(i as int));
        assert(nv.take(i + 1).last() == now@[i as int].model());
        let n = now[i].name.as_str();
        if recorded_input_exec(rec, n) || !produced_into_exec(produced, n) {
            let ghost before = inputs_view(out@);
            let c = copy_input(&now[i]);
            out.push(c);
            assert(inputs_view(out@) =~= before.push(now@[i as int].model()));
        }
        i = i + 1;
    }
    assert(nv.take(i as int) =~= nv);
    out
}

fn kept_plugins_exec(
    now: &[(String, bool)],
    rec: &Vec<(String, bool)>,
    produced: &[(Option<String>, String)],
) -> (r: Vec<(String, bool)>)
    ensures
        plugins_view(r@) == kept_plugins(plugins_view(now@), plugins_view(rec@), produced_view(produced@)),
{
    let ghost nv = plugins_view(now@);
    let ghost rv = plugins_view(rec@);
    let ghost pv = produced_view(produced@);
    let mut out: Vec<(String, bool)> = Vec::new();
    let mut i: usize = 0;
    while i < now.len()
        invariant
            i <= now@.len(),
            nv == plugins_view(now@),
            rv == plugins_view(rec@),
            pv == produced_view(produced@),
            plugins_view(out@) == kept_plugins(nv.take(i as int), rv, pv),
        decreases now.len() - i,
    {
        assert(nv.take(i + 1).drop_last() =~= nv.take(i as int));
        assert(nv.take(i + 1).last() == (now@[i as int].0@, now@[i as int].1));
        let n = now[i].0.as_str();
        if recorded_plugin_exec(rec, n) || !produced_plugin_exec(produced, n) {
            let ghost before = plugins_view(out@);
            out.push((now[i].0.clone(), now[i].1));
            assert(plugins_view(out@) =~= before.push((now@[i as int].0@, now@[i as int].1)));
        }
        i = i + 1;
    }
    assert(nv.take(i as int) =~= nv);
    out
}

/// Whether a run's recorded inputs have drifted, conservatively: by the
/// active profile, the tool's preset now (see [`tool_preset`]), the active
/// mods now with their versions and installed files, the plugins now, the
/// run's produced files that are still unchanged (a mod its output was moved
/// into, or a plugin it made, is no input of its own), and the executable's
/// `(size, seconds, nanoseconds)` now (`None` when it is no longer a file).
pub fn generated_input_drift(
    receipt: &GeneratedReceipt,
    active_profile: &str,
    tool_preset_now: &Option<(String, Vec<String>)>,
    inputs_now: &[GeneratedInput],
    plugins_now: &[(String, bool)],
    produced: &[(Option<String>, String)],
    exe_now: Option<(u64, u64, u32)>,
) -> (r: bool)
    ensures
        r == drift_spec(
            receipt@,
            active_profile@,
            preset_view(*tool_preset_now),
            inputs_view(inputs_now@),
            plugins_view(plugins_now@),
            produced_view(produced@),
            exe_now,
        ),
{
    if !eq_str(active_profile, receipt.profile.as_str()) {
        return true;
    }
    if !eq_preset(tool_preset_now, &receipt.tool_preset) {
        return true;
    }
    let inputs = kept_inputs_exec(inputs_now, &receipt.inputs, produced);
    if !eq_inputs(inputs.as_slice(), &receipt.inputs) {
        return true;
    }
    let plugins = kept_plugins_exec(plugins_now, &receipt.plugins, produced);
    if !eq_plugins(plugins.as_slice(), &receipt.plugins) {
        return true;
    }
    match &receipt.executable {
        Some(e) => match exe_now {
            Some((size, secs, nanos)) => !(size == e.size && secs == e.modified_secs && nanos == e.modified_nanos),
            None => true,
        },
        None => false,
    }
}

/// What identifies a file's current contents without reading them: its
/// length, modification time, inode and change time.
#[derive(Debug, Clone, Copy, PartialEq, Eq, Structural)]
pub struct FileStamp {
    pub len: u64,
    pub mtime_secs: u64,
    pub mtime_nanos: u32,
    pub ino: u64,
    pub ctime: i64,
    pub ctime_ns: i64,
}

/// One attributed output file: the mod it lives in (none for Overwrite), its
/// path inside that, its stamp when attributed, and the receipt it came from.
#[derive(Debug, Clone)]
pub struct StoredOutput {
    pub mod_name: Option<String>,
    pub path: String,
    pub stamp: FileStamp,
    pub receipt: String,
}

/// An output as `(owner, path, stamp, receipt id)`.
pub type OutputM = (Option<Seq<char>>, Seq<char>, FileStamp, Seq<char>);

impl StoredOutput {
    pub open spec fn model(&self) -> OutputM {
        (ov(self.mod_name), self.path@, self.stamp, self.receipt@)
    }
}

/// The models of attributed outputs.
pub open spec fn outputs_view(v: Seq<StoredOutput>) -> Seq<OutputM> {
    v.map_values(|o: StoredOutput| o.model())
}

/// The views of a snapshot of `(path, stamp)` pairs.
pub open spec fn snapshot_view(v: Seq<(String, FileStamp)>) -> Seq<(Seq<char>, FileStamp)> {
    v.map_values(|e: (String, FileStamp)| (e.0@, e.1))
}

/// The stamp a snapshot records for a path (its first mention).
pub open spec fn stamp_at(snap: Seq<(Seq<char>, FileStamp)>, p: Seq<char>) -> Option<FileStamp>
    decreases snap.len(),
{
    if snap.len() == 0 {
        None
    } else if snap[0].0 == p {
        Some(snap[0].1)
    } else {
        stamp_at(snap.drop_first(), p)
    }
}

/// The outputs without Overwrite's attribution of `p`.
pub open spec fn drop_overwrite(files: Seq<OutputM>, p: Seq<char>) -> Seq<OutputM>
    decreases files.len(),
{
    if files.len() == 0 {
        Seq::empty()
    } else {
        let q = drop_overwrite(files.drop_last(), p);
        let f = files.last();
        if f.0 is Some || f.1 != p { q.push(f) } else { q }
    }
}

/// Recording a finished run: every Overwrite file whose stamp is not what the
/// snapshot before the run held is attributed to the run (replacing an older
/// Overwrite attribution of that path), in the order of the snapshot after
/// it; with how many were.
pub open spec fn record_spec(
    files: Seq<OutputM>,
    before: Seq<(Seq<char>, FileStamp)>,
    after: Seq<(Seq<char>, FileStamp)>,
    id: Seq<char>,
) -> (Seq<OutputM>, nat)
    decreases after.len(),
{
    if after.len() == 0 {
        (files, 0)
    } else {
        let (fs, n) = record_spec(files, before, after.drop_last(), id);
        let (p, st) = after.last();
        if stamp_at(before, p) == Some(st) {
            (fs, n)
        } else {
            (drop_overwrite(fs, p).push((None, p, st, id)), n + 1)
        }
    }
}

fn stamp_at_exec(snap: &[(String, FileStamp)], p: &str) -> (r: Option<FileStamp>)
    ensures
        r == stamp_at(snapshot_view(snap@), p@),
{
    let ghost sv = snapshot_view(snap@);
    let mut i: usize = 0;
    assert(sv.skip(0) =~= sv);
    while i < snap.len()
        invariant
            i <= snap@.len(),
            sv == snapshot_view(snap@),
            stamp_at(sv, p@) == stamp_at(sv.skip(i as int), p@),
        decreases snap.len() - i,
    {
        assert(sv.skip(i as int)[0] == (snap@[i as int].0@, snap@[i as int].1));
        assert(sv.skip(i as int).drop_first() =~= sv.skip(i + 1));
        if eq_str(snap[i].0.as_str(), p) {
            return Some(snap[i].1);
        }
        i = i + 1;
    }
    None
}

fn copy_output(o: &StoredOutput) -> (c: StoredOutput)
    ensures
        c.model() == o.model(),
{
    let mod_name = match &o.mod_name {
        Some(m) => Some(m.clone()),
        None => None,
    };
    StoredOutput { mod_name, path: o.path.clone(), stamp: o.stamp, receipt: o.receipt.clone() }
}

fn drop_overwrite_exec(files: &Vec<StoredOutput>, p: &str) -> (r: Vec<StoredOutput>)
    ensures
        outputs_view(r@) == drop_overwrite(outputs_view(files@), p@),
{
    let ghost fv = outputs_view(files@);
    let mut out: Vec<StoredOutput> = Vec::new();
    let mut i: usize = 0;
    while i < files.len()
        invariant
            i <= files@.len(),
            fv == outputs_view(files@),
            outputs_view(out@) == drop_overwrite(fv.take(i as int), p@),
        decreases files.len() - i,
    {
        assert(fv.take(i + 1).drop_last() =~= fv.take(i as int));
        assert(fv.take(i + 1).last() == files@[i as int].model());
        if files[i].mod_name.is_some() || !eq_str(files[i].path.as_str(), p) {
            let ghost before = outputs_view(out@);
            out.push(copy_output(&files[i]));
            assert(outputs_view(out@) =~= before.push(files@[i as int].model()));
        }
        i = i + 1;
    }
    assert(fv.take(i as int) =~= fv);
    out
}

/// Attribute a finished run's output: the Overwrite files whose stamps
/// changed between the snapshot `before` the run and the one `after` it go
/// to the run `id`; returns the outputs and how many were attributed.
pub fn record_run(
    files: Vec<StoredOutput>,
    before: &[(String, FileStamp)],
    after: &[(String, FileStamp)],
    id: &str,
) -> (r: (Vec<StoredOutput>, usize))
    requires
        after@.len() < usize::MAX,
    ensures
        (outputs_view(r.0@), r.1 as nat) == record_spec(
            outputs_view(files@),
            snapshot_view(before@),
            snapshot_view(after@),
            id@,
        ),
{
    let ghost av = snapshot_view(after@);
    let ghost bv = snapshot_view(before@);
    let ghost f0 = outputs_view(files@);
    let mut cur = files;
    let mut n: usize = 0;
    let mut i: usize = 0;
    while i < after.len()
        invariant
            i <= after@.len(),
            after@.len() < usize::MAX,
            av == snapshot_view(after@),
            bv == snapshot_view(before@),
            (outputs_view(cur@), n as nat) == record_spec(f0, bv, av.take(i as int), id@),
            n <= i,
        decreases after.len() - i,
    {
        assert(av.take(i + 1).drop_last() =~= av.take(i as int));
        assert(av.take(i + 1).last() == (after@[i as int].0@, after@[i as int].1));
        let p = after[i].0.as_str();
        let st = after[i].1;
        let seen = stamp_at_exec(before, p);
        let same = match seen {
            Some(b) => b == st,
            None => false,
        };
        if !same {
            let mut next = drop_overwrite_exec(&cur, p);
            let ghost before_push = outputs_view(next@);
            let o = StoredOutput { mod_name: None, path: after[i].0.clone(), stamp: st, receipt: id.to_owned() };
            next.push(o);
            assert(outputs_view(next@) =~= before_push.push((None, p@, st, id@)));
            cur = next;
            n = n + 1;
        }
        i = i + 1;
    }
    assert(av.take(i as int) =~= av);
    (cur, n)
}

/// Whether two receipts are the same record.
pub fn same_receipt(a: &GeneratedReceipt, b: &GeneratedReceipt) -> (r: bool)
    ensures
        r == (a@ == b@),
{
    let exe_same = match (&a.executable, &b.executable) {
        (Some(x), Some(y)) => eq_str(x.path.as_str(), y.path.as_str()) && x.size == y.size
            && x.modified_secs == y.modified_secs && x.modified_nanos == y.modified_nanos,
        (None, None) => true,
        _ => false,
    };
    eq_str(a.id.as_str(), b.id.as_str()) && eq_str(a.tool.as_str(), b.tool.as_str()) && eq_strs(&a.command, &b.command)
        && exe_same && eq_preset(&a.tool_preset, &b.tool_preset) && eq_str(a.profile.as_str(), b.profile.as_str())
        && a.started_at == b.started_at && eq_inputs(a.inputs.as_slice(), &b.inputs) && eq_plugins(
        a.plugins.as_slice(),
        &b.plugins,
    )
}

/// A stored path the store accepts: relative, not empty, and made of plain
/// components only (no leading `.` component, no `..` anywhere).
pub open spec fn plain_path(p: Seq<char>) -> bool {
    &&& p.len() > 0
    &&& p[0] != '/'
    &&& split_on(p, '/')[0] != "."@
    &&& forall|k: int| 0 <= k < split_on(p, '/').len() ==> #[trigger] split_on(p, '/')[k] != ".."@
}

/// Whether a receipt store read back is one to trust: version 1, and every
/// output with a plain path, a mod name that is a mod folder name, a receipt
/// the store holds, and no two outputs for the same owner and path.
pub open spec fn store_valid_spec(version: u32, files: Seq<OutputM>, ids: Seq<Seq<char>>) -> bool {
    &&& version == 1
    &&& forall|i: int| 0 <= i < files.len() ==> {
        &&& plain_path((#[trigger] files[i]).1)
        &&& (files[i].0 matches Some(m) ==> crate::tools::mod_folder_name(m))
        &&& ids.contains(files[i].3)
    }
    &&& forall|i: int, j: int| 0 <= i < j < files.len() ==> !((#[trigger] files[i]).0 == (#[trigger] files[j]).0
        && files[i].1 == files[j].1)
}

fn plain_path_exec(p: &str) -> (b: bool)
    ensures
        b == plain_path(p@),
{
    proof {
        reveal_strlit(".");
        reveal_strlit("..");
    }
    let v = crate::text::chars_of(p);
    assert(v@ == p@);
    if v.len() == 0 || v[0] == '/' {
        return false;
    }
    let cells = crate::text::split_vec(&v, '/');
    let dot = crate::text::chars_of(".");
    let dots = crate::text::chars_of("..");
    assert(dot@ == "."@);
    assert(cells@[0]@ == split_on(p@, '/')[0]);
    if crate::text::eq_chars(&cells[0], &dot) {
        return false;
    }
    let mut k: usize = 0;
    while k < cells.len()
        invariant
            k <= cells@.len(),
            v@ == p@,
            cells@.len() == split_on(v@, '/').len(),
            forall|i: int| 0 <= i < cells@.len() ==> (#[trigger] cells@[i])@ == split_on(v@, '/')[i],
            dots@ == ".."@,
            forall|i: int| 0 <= i < k ==> #[trigger] split_on(v@, '/')[i] != ".."@,
        decreases cells.len() - k,
    {
        if crate::text::eq_chars(&cells[k], &dots) {
            assert(split_on(v@, '/')[k as int] == ".."@);
            return false;
        }
        k = k + 1;
    }
    true
}

fn has_id(ids: &[String], id: &str) -> (b: bool)
    ensures
        b == strs_view(ids@).contains(id@),
{
    let ghost iv = strs_view(ids@);
    let mut i: usize = 0;
    while i < ids.len()
        invariant
            i <= ids@.len(),
            iv == strs_view(ids@),
            forall|j: int| 0 <= j < i ==> iv[j] != id@,
        decreases ids.len() - i,
    {
        if eq_str(ids[i].as_str(), id) {
            assert(iv[i as int] == id@);
            return true;
        }
        i = i + 1;
    }
    false
}

/// Check a receipt store read back (see [`store_valid_spec`]); `ids` are the
/// ids of the receipts it holds.
pub fn store_valid(version: u32, files: &[StoredOutput], ids: &[String]) -> (b: bool)
    ensures
        b == store_valid_spec(version, outputs_view(files@), strs_view(ids@)),
{
    let ghost fv = outputs_view(files@);
    if version != 1 {
        return false;
    }
    let mut i: usize = 0;
    while i < files.len()
        invariant
            i <= files@.len(),
            fv == outputs_view(files@),
            forall|a: int| 0 <= a < i ==> {
                &&& plain_path((#[trigger] fv[a]).1)
                &&& (fv[a].0 matches Some(m) ==> crate::tools::mod_folder_name(m))
                &&& strs_view(ids@).contains(fv[a].3)
            },
            forall|a: int, c: int| 0 <= a < c < i ==> !((#[trigger] fv[a]).0 == (#[trigger] fv[c]).0 && fv[a].1 == fv[c].1),
        decreases files.len() - i,
    {
        assert(fv[i as int] == files@[i as int].model());
        let f = &files[i];
        let name_ok = match &f.mod_name {
            Some(m) => crate::tools::is_mod_folder_name(m.as_str()),
            None => true,
        };
        if !plain_path_exec(f.path.as_str()) || !name_ok || !has_id(ids, f.receipt.as_str()) {
            return false;
        }
        let mut j: usize = 0;
        while j < i
            invariant
                j <= i < files@.len(),
                fv == outputs_view(files@),
                fv[i as int] == files@[i as int].model(),
                forall|a: int| 0 <= a < j ==> !((#[trigger] fv[a]).0 == fv[i as int].0 && fv[a].1 == fv[i as int].1),
            decreases i - j,
        {
            assert(fv[j as int] == files@[j as int].model());
            let same_owner = eq_opt_str(&files[j].mod_name, &files[i].mod_name);
            let same_path = eq_str(files[j].path.as_str(), files[i].path.as_str());
            if same_owner && same_path {
                assert(fv[j as int].0 == fv[i as int].0 && fv[j as int].1 == fv[i as int].1);
                return false;
            }
            assert(!(fv[j as int].0 == fv[i as int].0 && fv[j as int].1 == fv[i as int].1));
            j = j + 1;
        }
        i = i + 1;
    }
    true
}

/// Components compared in order, each by its characters; a list that runs
/// out first is smaller. This is how paths made of plain components order.
pub open spec fn parts_lt(a: Seq<Seq<char>>, b: Seq<Seq<char>>) -> bool
    decreases a.len(),
{
    if a.len() == 0 {
        b.len() > 0
    } else if b.len() == 0 {
        false
    } else if a[0] != b[0] {
        key_lt(a[0], b[0])
    } else {
        parts_lt(a.drop_first(), b.drop_first())
    }
}

/// Path order over `/`-separated components.
pub open spec fn path_lt(a: Seq<char>, b: Seq<char>) -> bool {
    parts_lt(split_on(a, '/'), split_on(b, '/'))
}

/// The order of output groups: by owner (Overwrite first, then mods by
/// name), then by receipt id.
pub open spec fn group_lt(a: (Option<Seq<char>>, Seq<char>), b: (Option<Seq<char>>, Seq<char>)) -> bool {
    match (a.0, b.0) {
        (None, Some(_)) => true,
        (Some(_), None) => false,
        (None, None) => key_lt(a.1, b.1),
        (Some(x), Some(y)) => key_lt(x, y) || (x == y && key_lt(a.1, b.1)),
    }
}

/// A group of outputs as `(owner, receipt id, paths)`.
pub type GroupM = (Option<Seq<char>>, Seq<char>, Seq<Seq<char>>);

/// Where a path goes among sorted paths: after every path not above it.
pub open spec fn path_pos(ps: Seq<Seq<char>>, p: Seq<char>) -> int
    decreases ps.len(),
{
    if ps.len() == 0 {
        0
    } else if path_lt(p, ps.last()) {
        path_pos(ps.drop_last(), p)
    } else {
        ps.len() as int
    }
}

/// Where a new group goes: before the first group not below it.
pub open spec fn group_pos(gs: Seq<GroupM>, k: (Option<Seq<char>>, Seq<char>)) -> int
    decreases gs.len(),
{
    if gs.len() == 0 {
        0
    } else if !group_lt((gs[0].0, gs[0].1), k) {
        0
    } else {
        group_pos(gs.drop_first(), k) + 1
    }
}

/// The group holding key `k`, if any.
pub open spec fn group_of(gs: Seq<GroupM>, k: (Option<Seq<char>>, Seq<char>)) -> Option<int>
    decreases gs.len(),
{
    if gs.len() == 0 {
        None
    } else if (gs.last().0, gs.last().1) == k {
        Some(gs.len() - 1)
    } else {
        group_of(gs.drop_last(), k)
    }
}

/// Add one output to the groups: into its group's sorted paths, or as a new
/// group in group order.
pub open spec fn add_output(gs: Seq<GroupM>, o: OutputM) -> Seq<GroupM> {
    let k = (o.0, o.3);
    match group_of(gs, k) {
        Some(g) => gs.update(g, (gs[g].0, gs[g].1, gs[g].2.insert(path_pos(gs[g].2, o.1), o.1))),
        None => gs.insert(group_pos(gs, k), (o.0, o.3, seq![o.1])),
    }
}

/// The current outputs grouped by owner and run: every output whose file is
/// still unchanged (`unchanged`, beside `files`), added in turn.
pub open spec fn groups_spec(files: Seq<OutputM>, unchanged: Seq<bool>) -> Seq<GroupM>
    decreases files.len(),
{
    if files.len() == 0 {
        Seq::empty()
    } else {
        let g = groups_spec(files.drop_last(), unchanged);
        if unchanged[files.len() - 1] { add_output(g, files.last()) } else { g }
    }
}

/// The views of output groups.
pub open spec fn groups_view(v: Seq<(Option<String>, String, Vec<String>)>) -> Seq<GroupM> {
    v.map_values(|g: (Option<String>, String, Vec<String>)| (ov(g.0), g.1@, strs_view(g.2@)))
}

fn parts_lt_exec(a: &Vec<Vec<char>>, b: &Vec<Vec<char>>) -> (r: bool)
    ensures
        r == parts_lt(a@.map_values(|x: Vec<char>| x@), b@.map_values(|x: Vec<char>| x@)),
{
    let ghost av = a@.map_values(|x: Vec<char>| x@);
    let ghost bv = b@.map_values(|x: Vec<char>| x@);
    let mut i: usize = 0;
    assert(av.skip(0) =~= av);
    assert(bv.skip(0) =~= bv);
    while i < a.len() && i < b.len()
        invariant
            i <= a@.len(),
            i <= b@.len(),
            av == a@.map_values(|x: Vec<char>| x@),
            bv == b@.map_values(|x: Vec<char>| x@),
            parts_lt(av, bv) == parts_lt(av.skip(i as int), bv.skip(i as int)),
        decreases a.len() - i,
    {
        assert(av.skip(i as int)[0] == a@[i as int]@);
        assert(bv.skip(i as int)[0] == b@[i as int]@);
        if !crate::text::eq_chars(&a[i], &b[i]) {
            return crate::archive::key_lt_exec(&a[i], &b[i]);
        }
        assert(av.skip(i as int).drop_first() =~= av.skip(i + 1));
        assert(bv.skip(i as int).drop_first() =~= bv.skip(i + 1));
        i = i + 1;
    }
    i == a.len() && i < b.len()
}

fn path_lt_exec(a: &str, b: &str) -> (r: bool)
    ensures
        r == path_lt(a@, b@),
{
    let av = crate::text::chars_of(a);
    let bv = crate::text::chars_of(b);
    let pa = crate::text::split_vec(&av, '/');
    let pb = crate::text::split_vec(&bv, '/');
    assert(pa@.map_values(|x: Vec<char>| x@) =~= split_on(a@, '/'));
    assert(pb@.map_values(|x: Vec<char>| x@) =~= split_on(b@, '/'));
    parts_lt_exec(&pa, &pb)
}

fn group_lt_exec(ao: &Option<String>, ai: &str, bo: &Option<String>, bi: &str) -> (r: bool)
    ensures
        r == group_lt((ov(*ao), ai@), (ov(*bo), bi@)),
{
    let ia = crate::text::chars_of(ai);
    let ib = crate::text::chars_of(bi);
    match (ao, bo) {
        (None, Some(_)) => true,
        (Some(_), None) => false,
        (None, None) => crate::archive::key_lt_exec(&ia, &ib),
        (Some(x), Some(y)) => {
            let xa = crate::text::chars_of(x.as_str());
            let ya = crate::text::chars_of(y.as_str());
            crate::archive::key_lt_exec(&xa, &ya) || (eq_str(x.as_str(), y.as_str())
                && crate::archive::key_lt_exec(&ia, &ib))
        },
    }
}

fn add_output_exec(gs: &mut Vec<(Option<String>, String, Vec<String>)>, o: &StoredOutput)
    ensures
        groups_view(final(gs)@) == add_output(groups_view(old(gs)@), o.model()),
{
    let ghost g0 = groups_view(gs@);
    let ghost k = (ov(o.mod_name), o.receipt@);
    let mut g: usize = gs.len();
    assert(g0.take(g as int) =~= g0);
    while g > 0
        invariant
            g <= gs@.len(),
            g0 == groups_view(gs@),
            g0 == groups_view(old(gs)@),
            k == (ov(o.mod_name), o.receipt@),
            group_of(g0, k) == group_of(g0.take(g as int), k),
        decreases g,
    {
        assert(g0.take(g as int).last() == g0[g - 1]);
        assert(g0[g - 1] == (ov(gs@[g - 1].0), gs@[g - 1].1@, strs_view(gs@[g - 1].2@)));
        let same_owner = eq_opt_str(&gs[g - 1].0, &o.mod_name);
        let same_id = eq_str(gs[g - 1].1.as_str(), o.receipt.as_str());
        if same_owner && same_id {
            let idx = g - 1;
            assert((g0[idx as int].0, g0[idx as int].1) == k);
            assert(group_of(g0, k) == Some(idx as int));
            let ghost ps = g0[idx as int].2;
            let mut pos: usize = gs[idx].2.len();
            assert(ps.take(pos as int) =~= ps);
            while pos > 0 && path_lt_exec(o.path.as_str(), gs[idx].2[pos - 1].as_str())
                invariant
                    idx < gs@.len(),
                    pos <= gs@[idx as int].2@.len(),
                    g0 == groups_view(gs@),
                    ps == g0[idx as int].2,
                    ps == strs_view(gs@[idx as int].2@),
                    path_pos(ps, o.path@) == path_pos(ps.take(pos as int), o.path@),
                decreases pos,
            {
                assert(ps.take(pos as int).drop_last() =~= ps.take(pos - 1));
                assert(ps.take(pos as int).last() == gs@[idx as int].2@[pos - 1]@);
                pos = pos - 1;
            }
            proof {
                if pos > 0 {
                    assert(ps.take(pos as int).last() == gs@[idx as int].2@[pos - 1]@);
                }
            }
            assert(path_pos(ps, o.path@) == pos);
            let mut entry = (None, String::new(), Vec::new());
            std::mem::swap(&mut entry, &mut gs[idx]);
            let (own, id, mut paths) = entry;
            paths.insert(pos, o.path.clone());
            assert(strs_view(paths@) =~= ps.insert(pos as int, o.path@));
            let ghost before = gs@;
            gs.set(idx, (own, id, paths));
            assert(groups_view(gs@) =~= g0.update(idx as int, (g0[idx as int].0, g0[idx as int].1, ps.insert(
                path_pos(ps, o.path@),
                o.path@,
            ))));
            return;
        }
        assert((g0[g - 1].0, g0[g - 1].1) != k);
        assert(g0.take(g as int).drop_last() =~= g0.take(g - 1));
        g = g - 1;
    }
    let mut at: usize = 0;
    assert(g0.skip(0) =~= g0);
    while at < gs.len() && group_lt_exec(&gs[at].0, gs[at].1.as_str(), &o.mod_name, o.receipt.as_str())
        invariant
            at <= gs@.len(),
            g0 == groups_view(gs@),
            g0 == groups_view(old(gs)@),
            k == (ov(o.mod_name), o.receipt@),
            group_pos(g0, k) == group_pos(g0.skip(at as int), k) + at,
        decreases gs.len() - at,
    {
        assert(g0.skip(at as int)[0] == g0[at as int]);
        assert(g0[at as int] == (ov(gs@[at as int].0), gs@[at as int].1@, strs_view(gs@[at as int].2@)));
        assert(group_lt((g0[at as int].0, g0[at as int].1), k));
        assert(g0.skip(at as int).len() > 0);
        assert(g0.skip(at as int).drop_first() =~= g0.skip(at + 1));
        assert(group_pos(g0.skip(at as int), k) == group_pos(g0.skip(at + 1), k) + 1);
        at = at + 1;
    }
    proof {
        if at < gs@.len() {
            assert(g0.skip(at as int)[0] == g0[at as int]);
            assert(g0[at as int] == (ov(gs@[at as int].0), gs@[at as int].1@, strs_view(gs@[at as int].2@)));
        }
    }
    let own = match &o.mod_name {
        Some(m) => Some(m.clone()),
        None => None,
    };
    let mut ps: Vec<String> = Vec::new();
    ps.push(o.path.clone());
    assert(strs_view(ps@) =~= seq![o.path@]);
    gs.insert(at, (own, o.receipt.clone(), ps));
    assert(groups_view(gs@) =~= g0.insert(at as int, (ov(o.mod_name), o.receipt@, seq![o.path@])));
}

/// The current outputs of every run, grouped by owner (`None` being
/// Overwrite) and receipt id, in that order, each group's paths in path
/// order. Only outputs whose files are unchanged (`unchanged`, beside
/// `files`) count: external rewrites and removed files are left out rather
/// than misattributed.
pub fn group_outputs(files: &[StoredOutput], unchanged: &[bool]) -> (r: Vec<(Option<String>, String, Vec<String>)>)
    requires
        unchanged@.len() == files@.len(),
    ensures
        groups_view(r@) == groups_spec(outputs_view(files@), unchanged@),
{
    let ghost fv = outputs_view(files@);
    let mut gs: Vec<(Option<String>, String, Vec<String>)> = Vec::new();
    let mut i: usize = 0;
    assert(groups_view(gs@) =~= Seq::<GroupM>::empty());
    while i < files.len()
        invariant
            i <= files@.len(),
            unchanged@.len() == files@.len(),
            fv == outputs_view(files@),
            groups_view(gs@) == groups_spec(fv.take(i as int), unchanged@),
        decreases files.len() - i,
    {
        assert(fv.take(i + 1).drop_last() =~= fv.take(i as int));
        assert(fv.take(i + 1).last() == files@[i as int].model());
        if unchanged[i] {
            add_output_exec(&mut gs, &files[i]);
        }
        i = i + 1;
    }
    assert(fv.take(i as int) =~= fv);
    gs
}

/// The groups of one owner, as `(receipt id, paths)`, in order.
pub open spec fn owner_groups(gs: Seq<GroupM>, owner: Option<Seq<char>>) -> Seq<(Seq<char>, Seq<Seq<char>>)>
    decreases gs.len(),
{
    if gs.len() == 0 {
        Seq::empty()
    } else {
        let p = owner_groups(gs.drop_last(), owner);
        if gs.last().0 == owner { p.push((gs.last().1, gs.last().2)) } else { p }
    }
}

/// The current outputs of one owner (`None` selecting Overwrite), as
/// `(receipt id, paths)` per run; `None` for an owner name that is no mod
/// folder name.
pub fn outputs_of(groups: &[(Option<String>, String, Vec<String>)], owner: Option<&str>) -> (r: Option<Vec<(String, Vec<String>)>>)
    ensures
        match owner {
            Some(m) => !crate::tools::mod_folder_name(m@) ==> r is None,
            None => true,
        },
        r matches Some(v) ==> v@.map_values(|x: (String, Vec<String>)| (x.0@, strs_view(x.1@))) == owner_groups(
            groups_view(groups@),
            match owner {
                Some(m) => Some(m@),
                None => None,
            },
        ),
        (match owner {
            Some(m) => crate::tools::mod_folder_name(m@),
            None => true,
        }) ==> r is Some,
{
    let ghost ow: Option<Seq<char>> = match owner {
        Some(m) => Some(m@),
        None => None,
    };
    match owner {
        Some(m) => {
            if !crate::tools::is_mod_folder_name(m) {
                return None;
            }
        },
        None => {},
    }
    let ghost gv = groups_view(groups@);
    let mut out: Vec<(String, Vec<String>)> = Vec::new();
    let mut i: usize = 0;
    while i < groups.len()
        invariant
            i <= groups@.len(),
            gv == groups_view(groups@),
            ow == match owner {
                Some(m) => Some(m@),
                None => None::<Seq<char>>,
            },
            out@.map_values(|x: (String, Vec<String>)| (x.0@, strs_view(x.1@))) == owner_groups(gv.take(i as int), ow),
        decreases groups.len() - i,
    {
        assert(gv.take(i + 1).drop_last() =~= gv.take(i as int));
        assert(gv.take(i + 1).last() == (ov(groups@[i as int].0), groups@[i as int].1@, strs_view(groups@[i as int].2@)));
        let same = match (&groups[i].0, owner) {
            (Some(a), Some(b)) => eq_str(a.as_str(), b),
            (None, None) => true,
            _ => false,
        };
        if same {
            let ghost before = out@.map_values(|x: (String, Vec<String>)| (x.0@, strs_view(x.1@)));
            let paths = clone_strs(&groups[i].2);
            out.push((groups[i].1.clone(), paths));
            assert(out@.map_values(|x: (String, Vec<String>)| (x.0@, strs_view(x.1@))) =~= before.push(
                (groups@[i as int].1@, strs_view(groups@[i as int].2@)),
            ));
        }
        i = i + 1;
    }
    assert(gv.take(i as int) =~= gv);
    Some(out)
}

/// Where a receipt with id `id` goes among receipts sorted by id: after every
/// id not above it.
pub open spec fn id_pos(sorted: Seq<ReceiptM>, id: Seq<char>) -> int
    decreases sorted.len(),
{
    if sorted.len() == 0 {
        0
    } else if key_lt(id, sorted.last().0) {
        id_pos(sorted.drop_last(), id)
    } else {
        sorted.len() as int
    }
}

/// Receipts sorted by id, each inserted in turn.
pub open spec fn by_id(rs: Seq<ReceiptM>) -> Seq<ReceiptM>
    decreases rs.len(),
{
    if rs.len() == 0 {
        Seq::empty()
    } else {
        let p = by_id(rs.drop_last());
        p.insert(id_pos(p, rs.last().0), rs.last())
    }
}

proof fn lemma_id_pos(sorted: Seq<ReceiptM>, id: Seq<char>)
    ensures
        0 <= id_pos(sorted, id) <= sorted.len(),
    decreases sorted.len(),
{
    if sorted.len() > 0 {
        lemma_id_pos(sorted.drop_last(), id);
    }
}

fn goes_before(key: &[char], r: &GeneratedReceipt) -> (b: bool)
    ensures
        b == key_lt(key@, r.id@),
{
    let prev = crate::text::chars_of(r.id.as_str());
    crate::archive::key_lt_exec(key, &prev)
}

/// The runs still pending (interrupted ones), in id order.
pub fn pending_by_id(pending: Vec<GeneratedReceipt>) -> (r: Vec<GeneratedReceipt>)
    ensures
        r@.map_values(|x: GeneratedReceipt| x@) == by_id(pending@.map_values(|x: GeneratedReceipt| x@)),
{
    let ghost all = pending@.map_values(|x: GeneratedReceipt| x@);
    let n = pending.len();
    let mut rest = pending;
    let mut out: Vec<GeneratedReceipt> = Vec::new();
    let mut i: usize = 0;
    assert(all.skip(0) =~= all);
    assert(out@.map_values(|x: GeneratedReceipt| x@) =~= by_id(all.take(0)));
    while i < n
        invariant
            n == all.len(),
            i <= n,
            rest@.map_values(|x: GeneratedReceipt| x@) == all.skip(i as int),
            out@.map_values(|x: GeneratedReceipt| x@) == by_id(all.take(i as int)),
        decreases n - i,
    {
        let ghost sv = out@.map_values(|x: GeneratedReceipt| x@);
        assert(all.take(i + 1).drop_last() =~= all.take(i as int));
        assert(rest@.map_values(|x: GeneratedReceipt| x@).len() == rest@.len());
        assert(rest@.len() == n - i);
        assert(rest@.map_values(|x: GeneratedReceipt| x@)[0] == rest@[0]@);
        assert(all.skip(i as int)[0] == rest@[0]@);
        let ghost old_rest = rest@;
        let r = rest.remove(0);
        assert(rest@ =~= old_rest.subrange(1, old_rest.len() as int));
        assert forall|j: int| 0 <= j < rest@.len() implies #[trigger] rest@[j]@ == all.skip(i + 1)[j] by {
            assert(rest@[j] == old_rest[j + 1]);
            assert(old_rest.map_values(|x: GeneratedReceipt| x@)[j + 1] == old_rest[j + 1]@);
            assert(all.skip(i as int)[j + 1] == all.skip(i + 1)[j]);
        }
        assert(rest@.map_values(|x: GeneratedReceipt| x@) =~= all.skip(i + 1));
        assert(all.take(i + 1).last() == r@);
        let key = crate::text::chars_of(r.id.as_str());
        let mut k: usize = out.len();
        assert(sv.take(k as int) =~= sv);
        while k > 0 && goes_before(&key, &out[k - 1])
            invariant
                k <= out@.len(),
                sv == out@.map_values(|x: GeneratedReceipt| x@),
                key@ == r.id@,
                id_pos(sv, r@.0) == id_pos(sv.take(k as int), r@.0),
            decreases k,
        {
            assert(sv.take(k as int).drop_last() =~= sv.take(k - 1));
            assert(sv.take(k as int).last() == out@[k - 1]@);
            k = k - 1;
        }
        proof {
            if k > 0 {
                assert(sv.take(k as int).last() == out@[k - 1]@);
            }
            lemma_id_pos(sv, r@.0);
        }
        out.insert(k, r);
        assert(out@.map_values(|x: GeneratedReceipt| x@) =~= sv.insert(k as int, all.take(i + 1).last()));
        i = i + 1;
    }
    assert(all.take(n as int) =~= all);
    out
}

/// The receipt of the Overwrite output at `p` that the snapshot `before` the
/// move still matched: the first such output.
pub open spec fn moving_receipt(files: Seq<OutputM>, p: Seq<char>, before: Seq<(Seq<char>, FileStamp)>) -> Option<Seq<char>>
    decreases files.len(),
{
    if files.len() == 0 {
        None
    } else if files[0].0 is None && files[0].1 == p && stamp_at(before, p) == Some(files[0].2) {
        Some(files[0].3)
    } else {
        moving_receipt(files.drop_first(), p, before)
    }
}

/// The outputs without any attribution of `p` to the Overwrite or to `owner`.
pub open spec fn drop_at(files: Seq<OutputM>, p: Seq<char>, owner: Seq<char>) -> Seq<OutputM>
    decreases files.len(),
{
    if files.len() == 0 {
        Seq::empty()
    } else {
        let q = drop_at(files.drop_last(), p, owner);
        let f = files.last();
        if f.1 == p && (f.0 is None || f.0 == Some(owner)) { q } else { q.push(f) }
    }
}

/// Following successful moves of Overwrite files into mods, in order: each
/// `(owner, path)` first drops the path's Overwrite and `owner` attributions,
/// and keeps the receipt of the Overwrite output the pre-move snapshot still
/// matched, now under `owner` with the file's new stamp (`stamps`, beside
/// `moved`). Unknown output keeps no receipt, so it cannot inherit an old one.
pub open spec fn moved_spec(
    files: Seq<OutputM>,
    before: Seq<(Seq<char>, FileStamp)>,
    moved: Seq<(Seq<char>, Seq<char>)>,
    stamps: Seq<FileStamp>,
) -> Seq<OutputM> {
    if files.len() == 0 {
        files
    } else {
        moved_steps(files, before, moved, stamps)
    }
}

/// The moves applied one after another.
pub open spec fn moved_steps(
    files: Seq<OutputM>,
    before: Seq<(Seq<char>, FileStamp)>,
    moved: Seq<(Seq<char>, Seq<char>)>,
    stamps: Seq<FileStamp>,
) -> Seq<OutputM>
    decreases moved.len(),
{
    if moved.len() == 0 {
        files
    } else {
        let fs = moved_steps(files, before, moved.drop_last(), stamps);
        let (owner, p) = moved.last();
        let kept = drop_at(fs, p, owner);
        match moving_receipt(fs, p, before) {
            Some(id) => kept.push((Some(owner), p, stamps[moved.len() - 1], id)),
            None => kept,
        }
    }
}

fn moving_receipt_exec(files: &Vec<StoredOutput>, p: &str, before: &[(String, FileStamp)]) -> (r: Option<String>)
    ensures
        match r {
            Some(id) => moving_receipt(outputs_view(files@), p@, snapshot_view(before@)) == Some(id@),
            None => moving_receipt(outputs_view(files@), p@, snapshot_view(before@)) is None,
        },
{
    let ghost fv = outputs_view(files@);
    let seen = stamp_at_exec(before, p);
    let mut i: usize = 0;
    assert(fv.skip(0) =~= fv);
    while i < files.len()
        invariant
            i <= files@.len(),
            fv == outputs_view(files@),
            seen == stamp_at(snapshot_view(before@), p@),
            moving_receipt(fv, p@, snapshot_view(before@)) == moving_receipt(fv.skip(i as int), p@, snapshot_view(before@)),
        decreases files.len() - i,
    {
        assert(fv.skip(i as int)[0] == files@[i as int].model());
        assert(fv.skip(i as int).drop_first() =~= fv.skip(i + 1));
        let f = &files[i];
        let hit = match seen {
            Some(st) => f.mod_name.is_none() && eq_str(f.path.as_str(), p) && st == f.stamp,
            None => false,
        };
        if hit {
            return Some(f.receipt.clone());
        }
        i = i + 1;
    }
    None
}

fn drop_at_exec(files: &Vec<StoredOutput>, p: &str, owner: &str) -> (r: Vec<StoredOutput>)
    ensures
        outputs_view(r@) == drop_at(outputs_view(files@), p@, owner@),
{
    let ghost fv = outputs_view(files@);
    let mut out: Vec<StoredOutput> = Vec::new();
    let mut i: usize = 0;
    while i < files.len()
        invariant
            i <= files@.len(),
            fv == outputs_view(files@),
            outputs_view(out@) == drop_at(fv.take(i as int), p@, owner@),
        decreases files.len() - i,
    {
        assert(fv.take(i + 1).drop_last() =~= fv.take(i as int));
        assert(fv.take(i + 1).last() == files@[i as int].model());
        let f = &files[i];
        let owned = match &f.mod_name {
            None => true,
            Some(m) => eq_str(m.as_str(), owner),
        };
        if !(eq_str(f.path.as_str(), p) && owned) {
            let ghost before = outputs_view(out@);
            out.push(copy_output(f));
            assert(outputs_view(out@) =~= before.push(files@[i as int].model()));
        }
        i = i + 1;
    }
    assert(fv.take(i as int) =~= fv);
    out
}

/// Update the outputs after successful moves out of the Overwrite (see
/// [`moved_spec`]); nothing changes when no output is recorded.
pub fn moved(
    files: Vec<StoredOutput>,
    before: &[(String, FileStamp)],
    moves: &[(String, String)],
    stamps: &[FileStamp],
) -> (r: Vec<StoredOutput>)
    requires
        stamps@.len() == moves@.len(),
    ensures
        outputs_view(r@) == moved_spec(
            outputs_view(files@),
            snapshot_view(before@),
            moves@.map_values(|m: (String, String)| (m.0@, m.1@)),
            stamps@,
        ),
{
    let ghost mv = moves@.map_values(|m: (String, String)| (m.0@, m.1@));
    let ghost f0 = outputs_view(files@);
    if files.len() == 0 {
        return files;
    }
    let mut cur = files;
    let mut k: usize = 0;
    while k < moves.len()
        invariant
            k <= moves@.len(),
            stamps@.len() == moves@.len(),
            mv == moves@.map_values(|m: (String, String)| (m.0@, m.1@)),
            outputs_view(cur@) == moved_steps(f0, snapshot_view(before@), mv.take(k as int), stamps@),
        decreases moves.len() - k,
    {
        assert(mv.take(k + 1).drop_last() =~= mv.take(k as int));
        assert(mv.take(k + 1).last() == (moves@[k as int].0@, moves@[k as int].1@));
        let owner = moves[k].0.as_str();
        let p = moves[k].1.as_str();
        let rid = moving_receipt_exec(&cur, p, before);
        let mut next = drop_at_exec(&cur, p, owner);
        match rid {
            Some(id) => {
                let ghost b = outputs_view(next@);
                next.push(StoredOutput { mod_name: Some(owner.to_owned()), path: p.to_owned(), stamp: stamps[k], receipt: id });
                assert(outputs_view(next@) =~= b.push((Some(owner@), p@, stamps@[k as int], outputs_view(next@).last().3)));
            },
            None => {},
        }
        cur = next;
        k = k + 1;
    }
    assert(mv.take(k as int) =~= mv);
    cur
}

proof fn lemma_kept_inputs_recorded(now: Seq<InputM>, rec: Seq<InputM>, produced: Seq<(Option<Seq<char>>, Seq<char>)>)
    requires
        forall|k: int| 0 <= k < now.len() ==> recorded_input(rec, #[trigger] now[k].0),
    ensures
        kept_inputs(now, rec, produced) == now,
    decreases now.len(),
{
    if now.len() > 0 {
        let q = now.drop_last();
        assert forall|k: int| 0 <= k < q.len() implies recorded_input(rec, #[trigger] q[k].0) by {
            assert(q[k] == now[k]);
        }
        lemma_kept_inputs_recorded(q, rec, produced);
        assert(recorded_input(rec, now[now.len() - 1].0));
        assert(q.push(now.last()) =~= now);
    }
}

proof fn lemma_kept_plugins_recorded(
    now: Seq<(Seq<char>, bool)>,
    rec: Seq<(Seq<char>, bool)>,
    produced: Seq<(Option<Seq<char>>, Seq<char>)>,
)
    requires
        forall|k: int| 0 <= k < now.len() ==> recorded_plugin(rec, #[trigger] now[k].0),
    ensures
        kept_plugins(now, rec, produced) == now,
    decreases now.len(),
{
    if now.len() > 0 {
        let q = now.drop_last();
        assert forall|k: int| 0 <= k < q.len() implies recorded_plugin(rec, #[trigger] q[k].0) by {
            assert(q[k] == now[k]);
        }
        lemma_kept_plugins_recorded(q, rec, produced);
        assert(recorded_plugin(rec, now[now.len() - 1].0));
        assert(q.push(now.last()) =~= now);
    }
}

/// Nothing changed, no drift: with the profile, preset, inputs and plugins
/// the run recorded, and its executable as it was fingerprinted, a run never
/// reports drift, whatever output it produced.
pub proof fn lemma_unchanged_is_no_drift(r: ReceiptM, produced: Seq<(Option<Seq<char>>, Seq<char>)>)
    ensures
        !drift_spec(r, r.5, r.4, r.7, r.8, produced, match r.3 {
            Some(e) => Some((e.1, e.2.0, e.2.1)),
            None => None,
        }),
{
    assert forall|k: int| 0 <= k < r.7.len() implies recorded_input(r.7, #[trigger] r.7[k].0) by {
        crate::text::lemma_lower_len(r.7[k].0);
    }
    assert forall|k: int| 0 <= k < r.8.len() implies recorded_plugin(r.8, #[trigger] r.8[k].0) by {
        crate::text::lemma_lower_len(r.8[k].0);
    }
    lemma_kept_inputs_recorded(r.7, r.7, produced);
    lemma_kept_plugins_recorded(r.8, r.8, produced);
}

} // verus!
