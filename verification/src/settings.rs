//! The Nexus session stored in `nexus.ini` (parsed, and rendered back with
//! every line it does not own passed through), and the colour theme token.

use vstd::prelude::*;

use crate::ini::kv_text;
use crate::text::{
    chars_of, dec, eq_str, lines, lines_vec, lower, parse_u64_spec, parse_u64_vec, push_char,
    push_chars, push_str, split_once, split_once_vec, string_of, trim, trim_vec, u64_to_string,
};

verus! {

/// The Nexus OAuth session and the cached adult-content preference.
#[derive(Debug, Clone, PartialEq, Eq)]
pub struct NexusCreds {
    pub access_token: Option<String>,
    pub refresh_token: Option<String>,
    /// Unix seconds.
    pub expires_at: u64,
    /// The account's adult-content preference as last read; `None` is unknown.
    pub adult_ok: Option<bool>,
    /// Unix seconds when `adult_ok` was read.
    pub adult_checked_at: u64,
}

/// The view of an optional string.
pub open spec fn ostr(o: Option<String>) -> Option<Seq<char>> {
    match o {
        Some(s) => Some(s@),
        None => None,
    }
}

/// Credentials as `(access, refresh, expires, adult_ok, checked_at)`.
pub type CredsM = (Option<Seq<char>>, Option<Seq<char>>, u64, Option<bool>, u64);

impl NexusCreds {
    pub open spec fn model(&self) -> CredsM {
        (ostr(self.access_token), ostr(self.refresh_token), self.expires_at, self.adult_ok, self.adult_checked_at)
    }
}

impl Default for NexusCreds {
    /// Nothing stored.
    fn default() -> (c: NexusCreds)
        ensures
            c.model() == (None::<Seq<char>>, None::<Seq<char>>, 0u64, None::<bool>, 0u64),
    {
        NexusCreds { access_token: None, refresh_token: None, expires_at: 0, adult_ok: None, adult_checked_at: 0 }
    }
}

/// How long a cached adult-content preference is trusted, in seconds.
pub const ADULT_PREF_TTL: u64 = 86400;

impl NexusCreds {
    /// Whether a stored sign-in is present at all.
    pub fn has_oauth(&self) -> (b: bool)
        ensures
            b == match self.access_token {
                Some(t) => t@.len() > 0,
                None => false,
            },
    {
        match &self.access_token {
            Some(t) => !t.as_str().is_empty(),
            None => false,
        }
    }

    /// The cached adult-content preference, or `None` once it is older than a
    /// day or was never read.
    pub fn adult_pref(&self, now: u64) -> (r: Option<bool>)
        ensures
            r == (if (if now >= self.adult_checked_at { now - self.adult_checked_at } else { 0 }) < ADULT_PREF_TTL
                && self.adult_checked_at != 0 {
                self.adult_ok
            } else {
                None
            }),
    {
        let age = if now >= self.adult_checked_at { now - self.adult_checked_at } else { 0 };
        if age < ADULT_PREF_TTL && self.adult_checked_at != 0 {
            self.adult_ok
        } else {
            None
        }
    }
}

/// The value of the first `key=value` line whose trimmed key is `want`:
/// trimmed, and `None` when that value is empty.
pub open spec fn cred_val(ls: Seq<Seq<char>>, want: Seq<char>) -> Option<Seq<char>>
    decreases ls.len(),
{
    if ls.len() == 0 {
        None
    } else {
        match split_once(trim(ls[0]), '=') {
            Some((k, v)) => if trim(k) == want {
                if trim(v).len() > 0 { Some(trim(v)) } else { None }
            } else {
                cred_val(ls.drop_first(), want)
            },
            None => cred_val(ls.drop_first(), want),
        }
    }
}

/// A flag value: `1`/`true` or `0`/`false`; anything else is unknown.
pub open spec fn flag_val(v: Option<Seq<char>>) -> Option<bool> {
    match v {
        Some(s) => if s == "1"@ || s == "true"@ {
            Some(true)
        } else if s == "0"@ || s == "false"@ {
            Some(false)
        } else {
            None
        },
        None => None,
    }
}

/// A number value, 0 when absent or not a number.
pub open spec fn num_val(v: Option<Seq<char>>) -> u64 {
    match v {
        Some(s) => match parse_u64_spec(s) {
            Some(n) => n,
            None => 0,
        },
        None => 0,
    }
}

/// The credentials a `nexus.ini` text holds.
pub open spec fn parse_creds_spec(text: Seq<char>) -> CredsM {
    let ls = lines(text);
    (
        cred_val(ls, "access_token"@),
        cred_val(ls, "refresh_token"@),
        num_val(cred_val(ls, "expires_at"@)),
        flag_val(cred_val(ls, "adult_ok"@)),
        num_val(cred_val(ls, "adult_checked_at"@)),
    )
}

fn cred_val_exec(ls: &Vec<Vec<char>>, want: &str) -> (r: Option<Vec<char>>)
    ensures
        match r {
            Some(v) => cred_val(ls@.map_values(|l: Vec<char>| l@), want@) == Some(v@),
            None => cred_val(ls@.map_values(|l: Vec<char>| l@), want@) is None,
        },
{
    let ghost lm = ls@.map_values(|l: Vec<char>| l@);
    let w = chars_of(want);
    let mut i: usize = 0;
    assert(lm.skip(0) =~= lm);
    while i < ls.len()
        invariant
            i <= ls@.len(),
            lm == ls@.map_values(|l: Vec<char>| l@),
            w@ == want@,
            cred_val(lm, want@) == cred_val(lm.skip(i as int), want@),
        decreases ls.len() - i,
    {
        assert(lm.skip(i as int)[0] == ls@[i as int]@);
        assert(lm.skip(i as int).drop_first() =~= lm.skip(i + 1));
        let t = trim_vec(&ls[i]);
        match split_once_vec(&t, '=') {
            Some((k, v)) => {
                let kt = trim_vec(&k);
                if crate::text::eq_chars(&kt, &w) {
                    let vt = trim_vec(&v);
                    if vt.len() > 0 {
                        return Some(vt);
                    } else {
                        return None;
                    }
                }
            },
            None => {},
        }
        i = i + 1;
    }
    None
}

fn is_word(v: &[char], s: &str) -> (b: bool)
    ensures
        b == (v@ == s@),
{
    let w = chars_of(s);
    crate::text::eq_chars(v, &w)
}

/// Read every credential in a `nexus.ini` text. A line that is not a clean
/// `1`/`0` (or `true`/`false`) leaves the adult preference unknown.
pub fn parse_nexus_creds(text: &str) -> (c: NexusCreds)
    ensures
        c.model() == parse_creds_spec(text@),
{
    let v = chars_of(text);
    let ls = lines_vec(&v);
    assert(ls@.map_values(|l: Vec<char>| l@) =~= lines(text@));
    let access = match cred_val_exec(&ls, "access_token") {
        Some(x) => Some(string_of(&x)),
        None => None,
    };
    let refresh = match cred_val_exec(&ls, "refresh_token") {
        Some(x) => Some(string_of(&x)),
        None => None,
    };
    let expires = match cred_val_exec(&ls, "expires_at") {
        Some(x) => match parse_u64_vec(&x) {
            Some(n) => n,
            None => 0,
        },
        None => 0,
    };
    let adult = match cred_val_exec(&ls, "adult_ok") {
        Some(x) => if is_word(&x, "1") || is_word(&x, "true") {
            Some(true)
        } else if is_word(&x, "0") || is_word(&x, "false") {
            Some(false)
        } else {
            None
        },
        None => None,
    };
    let checked = match cred_val_exec(&ls, "adult_checked_at") {
        Some(x) => match parse_u64_vec(&x) {
            Some(n) => n,
            None => 0,
        },
        None => 0,
    };
    NexusCreds { access_token: access, refresh_token: refresh, expires_at: expires, adult_ok: adult, adult_checked_at: checked }
}

/// `key=value\n`, or nothing for an empty value.
pub open spec fn kv_line(k: Seq<char>, v: Seq<char>) -> Seq<char> {
    if v.len() == 0 { Seq::empty() } else { k + seq!['='] + v + seq!['\n'] }
}

/// An optional string's text, empty for none.
pub open spec fn or_empty(o: Option<Seq<char>>) -> Seq<char> {
    match o {
        Some(s) => s,
        None => Seq::empty(),
    }
}

/// The keys the credential file owns.
pub open spec fn owned_keys() -> Seq<Seq<char>> {
    seq!["access_token"@, "refresh_token"@, "expires_at"@, "adult_ok"@, "adult_checked_at"@]
}

/// The lines of an existing file carried over: every trimmed `key=value` line
/// (not a header or comment) whose key is not owned.
pub open spec fn kept_lines(ls: Seq<Seq<char>>) -> Seq<char>
    decreases ls.len(),
{
    if ls.len() == 0 {
        Seq::empty()
    } else {
        let prev = kept_lines(ls.drop_last());
        let t = trim(ls.last());
        if t.len() == 0 || t[0] == '[' || t[0] == '#' {
            prev
        } else {
            match split_once(t, '=') {
                Some((k, _)) => if owned_keys().contains(trim(k)) { prev } else { prev + t + seq!['\n'] },
                None => prev,
            }
        }
    }
}

/// The `[Nexus]` body for credentials over an existing file.
pub open spec fn render_creds_spec(existing: Seq<char>, c: CredsM) -> Seq<char> {
    "[Nexus]\n"@ + kv_line("access_token"@, trim(or_empty(c.0))) + kv_line("refresh_token"@, trim(or_empty(c.1)))
        + (if c.2 != 0 { kv_line("expires_at"@, dec(c.2 as nat)) } else { Seq::empty() })
        + match c.3 {
            Some(ok) => kv_line("adult_ok"@, if ok { "1"@ } else { "0"@ }) + kv_line("adult_checked_at"@, dec(c.4 as nat)),
            None => Seq::empty(),
        }
        + kept_lines(lines(existing))
}

fn push_kv(out: &mut String, k: &str, v: &[char])
    ensures
        final(out)@ == old(out)@ + kv_line(k@, v@),
{
    if v.len() > 0 {
        push_str(out, k);
        push_char(out, '=');
        push_chars(out, v);
        push_char(out, '\n');
    }
    assert(out@ =~= old(out)@ + kv_line(k@, v@));
}

fn opt_chars(o: &Option<String>) -> (v: Vec<char>)
    ensures
        v@ == or_empty(ostr(*o)),
{
    match o {
        Some(s) => chars_of(s.as_str()),
        None => Vec::new(),
    }
}

fn is_owned(k: &[char]) -> (b: bool)
    ensures
        b == owned_keys().contains(k@),
{
    let list = ["access_token", "refresh_token", "expires_at", "adult_ok", "adult_checked_at"];
    assert(list@.map_values(|x: &str| x@) =~= owned_keys());
    let mut i: usize = 0;
    while i < 5
        invariant
            i <= 5,
            list@.map_values(|x: &str| x@) == owned_keys(),
            forall|j: int| 0 <= j < i ==> owned_keys()[j] != k@,
        decreases 5 - i,
    {
        if is_word(k, list[i]) {
            assert(owned_keys()[i as int] == k@);
            return true;
        }
        i = i + 1;
    }
    false
}

/// Serialise credentials into a `[Nexus]` body, carrying over every line of
/// `existing` whose key is not one this module owns.
pub fn render_nexus_creds(existing: &str, creds: &NexusCreds) -> (s: String)
    ensures
        s@ == render_creds_spec(existing@, creds.model()),
{
    let mut out = "[Nexus]\n".to_owned();
    let a = opt_chars(&creds.access_token);
    let at = trim_vec(&a);
    push_kv(&mut out, "access_token", &at);
    let r = opt_chars(&creds.refresh_token);
    let rt = trim_vec(&r);
    push_kv(&mut out, "refresh_token", &rt);
    let ghost p1 = out@;
    if creds.expires_at != 0 {
        let e = crate::text::dec_vec(creds.expires_at);
        push_kv(&mut out, "expires_at", &e);
    }
    let ghost p2 = out@;
    match creds.adult_ok {
        Some(ok) => {
            let f = if ok { chars_of("1") } else { chars_of("0") };
            push_kv(&mut out, "adult_ok", &f);
            let c = crate::text::dec_vec(creds.adult_checked_at);
            push_kv(&mut out, "adult_checked_at", &c);
        },
        None => {},
    }
    let ghost p3 = out@;
    let ev = chars_of(existing);
    let ls = lines_vec(&ev);
    let ghost lm = lines(existing@);
    let mut i: usize = 0;
    assert(p3 + kept_lines(lm.take(0)) =~= p3);
    while i < ls.len()
        invariant
            i <= ls@.len(),
            ls@.len() == lm.len(),
            forall|k: int| 0 <= k < ls@.len() ==> (#[trigger] ls@[k])@ == lm[k],
            out@ == p3 + kept_lines(lm.take(i as int)),
        decreases ls.len() - i,
    {
        assert(lm.take(i + 1).drop_last() =~= lm.take(i as int));
        assert(lm.take(i + 1).last() == ls@[i as int]@);
        let t = trim_vec(&ls[i]);
        if !(t.len() == 0 || t[0] == '[' || t[0] == '#') {
            match split_once_vec(&t, '=') {
                Some((k, _)) => {
                    let kt = trim_vec(&k);
                    if !is_owned(&kt) {
                        push_chars(&mut out, &t);
                        push_char(&mut out, '\n');
                        assert(out@ =~= p3 + kept_lines(lm.take(i + 1)));
                    }
                },
                None => {},
            }
        }
        i = i + 1;
    }
    assert(lm.take(i as int) =~= lm);
    assert(out@ =~= render_creds_spec(existing@, creds.model()));
    out
}

/// Forget the sign-in and the account's adult preference, keeping nothing of
/// the session (what "sign out" stores).
pub fn clear_nexus_tokens(creds: &mut NexusCreds)
    ensures
        final(creds).model() == (None::<Seq<char>>, None::<Seq<char>>, 0u64, None::<bool>, 0u64),
{
    creds.access_token = None;
    creds.refresh_token = None;
    creds.expires_at = 0;
    creds.adult_ok = None;
    creds.adult_checked_at = 0;
}

/// Which colour theme the app renders in.
#[derive(Debug, Clone, Copy, PartialEq, Eq, Structural)]
pub enum Theme {
    /// Follow the platform.
    System,
    Light,
    Dark,
}

impl Default for Theme {
    fn default() -> (t: Theme)
        ensures
            t == Theme::System,
    {
        Theme::System
    }
}

/// The stored token of a theme.
pub open spec fn theme_token(t: Theme) -> Seq<char> {
    match t {
        Theme::System => "system"@,
        Theme::Light => "light"@,
        Theme::Dark => "dark"@,
    }
}

/// The theme a stored token names: `light` or `dark` ignoring ASCII case and
/// surrounding space; anything else is the system theme.
pub open spec fn theme_of(s: Seq<char>) -> Theme {
    let t = lower(trim(s));
    if t == "light"@ {
        Theme::Light
    } else if t == "dark"@ {
        Theme::Dark
    } else {
        Theme::System
    }
}

impl Theme {
    /// The on-disk token (lowercase, stable across releases).
    pub fn as_str(self) -> (s: &'static str)
        ensures
            s@ == theme_token(self),
    {
        match self {
            Theme::System => "system",
            Theme::Light => "light",
            Theme::Dark => "dark",
        }
    }

    /// Parse a stored token; unknown values fall back to the default.
    pub fn parse(s: &str) -> (t: Theme)
        ensures
            t == theme_of(s@),
    {
        let v = chars_of(s);
        let tv = trim_vec(&v);
        let l = crate::text::lower_vec(&tv);
        if is_word(&l, "light") {
            Theme::Light
        } else if is_word(&l, "dark") {
            Theme::Dark
        } else {
            Theme::System
        }
    }
}

/// Every theme reads back from its stored token.
pub proof fn lemma_theme_round_trip(t: Theme)
    ensures
        theme_of(theme_token(t)) == t,
{
    reveal_strlit("system");
    reveal_strlit("light");
    reveal_strlit("dark");
    let w = theme_token(t);
    crate::text::lemma_trim_fixed(w);
    assert(lower(w) =~= w);
    assert("system"@[0] != "light"@[0]);
    assert("system"@[0] != "dark"@[0]);
    assert("light"@[0] != "dark"@[0]);
}

/// The Nexus session file under the configuration directory.
pub fn nexus_key_path(config_home: &str) -> (p: String)
    ensures
        p@ == crate::paths::path_join(config_home@, "nexus.ini"@),
{
    crate::paths::join(config_home, "nexus.ini")
}

/// The GUI settings file under the configuration directory.
pub fn settings_path(config_home: &str) -> (p: String)
    ensures
        p@ == crate::paths::path_join(config_home@, "settings.ini"@),
{
    crate::paths::join(config_home, "settings.ini")
}

/// The app-wide preferences other than the drag-scroll speed, which is a
/// floating-point number kept by the caller.
#[derive(Debug, Clone, PartialEq, Eq)]
pub struct SettingsFields {
    /// The color theme to render in.
    pub theme: Theme,
    /// The game id to open by default.
    pub default_game: Option<String>,
    /// The last window size in logical pixels, `(width, height)`.
    pub window_size: Option<(u32, u32)>,
    /// Lock the GUI while a launched game or tool runs.
    pub lock_gui: bool,
    /// Restore the window to its last size on launch.
    pub remember_window: bool,
    /// Cut every Nexus request.
    pub offline: bool,
    /// CDN node names, best first.
    pub preferred_servers: Vec<String>,
}

/// Settings as `(theme, default game, window size, lock gui, remember
/// window, offline, servers)`.
pub type FieldsM = (Theme, Option<Seq<char>>, Option<(u32, u32)>, bool, bool, bool, Seq<Seq<char>>);

impl SettingsFields {
    pub open spec fn model(&self) -> FieldsM {
        (self.theme, ostr(self.default_game), self.window_size, self.lock_gui, self.remember_window, self.offline,
            crate::meta::strs_view(self.preferred_servers@))
    }

    /// The defaults: system theme, locking and remembering on, online.
    pub fn new() -> (f: SettingsFields)
        ensures
            f.model() == (Theme::System, None::<Seq<char>>, None::<(u32, u32)>, true, true, false, Seq::<Seq<char>>::empty()),
    {
        let f = SettingsFields {
            theme: Theme::System,
            default_game: None,
            window_size: None,
            lock_gui: true,
            remember_window: true,
            offline: false,
            preferred_servers: Vec::new(),
        };
        assert(crate::meta::strs_view(f.preferred_servers@) =~= Seq::<Seq<char>>::empty());
        f
    }
}

/// A word that switches a flag on: `true`, `1`, `yes`, `on` (ignoring ASCII case).
pub open spec fn on_word(v: Seq<char>) -> bool {
    let l = lower(v);
    l == "true"@ || l == "1"@ || l == "yes"@ || l == "on"@
}

/// A word that switches a flag off: `false`, `0`, `no`, `off` (ignoring ASCII case).
pub open spec fn off_word(v: Seq<char>) -> bool {
    let l = lower(v);
    l == "false"@ || l == "0"@ || l == "no"@ || l == "off"@
}

/// What the settings read so far, the window width and height as read and
/// the drag-scroll-speed values seen: `(fields, width, height, speeds)`.
pub type SettingsAcc = (FieldsM, Option<u32>, Option<u32>, Seq<Seq<char>>);

/// What one `key=value` line (trimmed key and value) does to the settings
/// read so far.
pub open spec fn settings_step(acc: SettingsAcc, k: Seq<char>, v: Seq<char>) -> SettingsAcc {
    let (f, w, h, sp) = acc;
    if k == "theme"@ {
        ((theme_of(v), f.1, f.2, f.3, f.4, f.5, f.6), w, h, sp)
    } else if k == "default_game"@ && v.len() > 0 {
        ((f.0, Some(v), f.2, f.3, f.4, f.5, f.6), w, h, sp)
    } else if k == "window_width"@ {
        (f, crate::text::parse_u32_spec(v), h, sp)
    } else if k == "window_height"@ {
        (f, w, crate::text::parse_u32_spec(v), sp)
    } else if k == "drag_scroll_speed"@ {
        (f, w, h, sp.push(v))
    } else if k == "offline"@ {
        ((f.0, f.1, f.2, f.3, f.4, on_word(v), f.6), w, h, sp)
    } else if k == "preferred_servers"@ {
        ((f.0, f.1, f.2, f.3, f.4, f.5, crate::tools::comma_items(crate::text::split_on(v, ','))), w, h, sp)
    } else if k == "remember_window"@ {
        ((f.0, f.1, f.2, f.3, !off_word(v), f.5, f.6), w, h, sp)
    } else if k == "lock_gui"@ {
        ((f.0, f.1, f.2, !off_word(v), f.4, f.5, f.6), w, h, sp)
    } else {
        (f, w, h, sp)
    }
}

/// What the lines of a settings file set, in order: blank, header and `#`
/// comment lines and lines without `=` change nothing.
pub open spec fn settings_fold(ls: Seq<Seq<char>>) -> SettingsAcc
    decreases ls.len(),
{
    if ls.len() == 0 {
        ((Theme::System, None, None, true, true, false, Seq::empty()), None, None, Seq::empty())
    } else {
        let acc = settings_fold(ls.drop_last());
        let t = trim(ls.last());
        if t.len() == 0 || t[0] == '[' || t[0] == '#' {
            acc
        } else {
            match split_once(t, '=') {
                Some((k0, v0)) => settings_step(acc, trim(k0), trim(v0)),
                None => acc,
            }
        }
    }
}

/// The settings a file holds, and the drag-scroll-speed values it gives in
/// order: only a complete, non-zero width and height pair is a window size.
pub open spec fn parse_settings_spec(text: Seq<char>) -> (FieldsM, Seq<Seq<char>>) {
    let (f, w, h, sp) = settings_fold(lines(text));
    let size = match (w, h) {
        (Some(a), Some(b)) => if a > 0 && b > 0 { Some((a, b)) } else { None },
        _ => None,
    };
    ((f.0, f.1, size, f.3, f.4, f.5, f.6), sp)
}

fn word_in(v: &[char], a: &str, b: &str, c: &str, d: &str) -> (r: bool)
    ensures
        r == (v@ == a@ || v@ == b@ || v@ == c@ || v@ == d@),
{
    is_word(v, a) || is_word(v, b) || is_word(v, c) || is_word(v, d)
}

/// Parse a `settings.ini` body: unknown keys are ignored and missing or
/// invalid values keep the field's default. The drag-scroll-speed values are
/// returned as written, in order, for the caller to read as numbers.
pub fn parse_settings(text: &str) -> (r: (SettingsFields, Vec<String>))
    ensures
        (r.0.model(), crate::meta::strs_view(r.1@)) == parse_settings_spec(text@),
{
    let v = chars_of(text);
    let ls = lines_vec(&v);
    let ghost lm = ls@.map_values(|l: Vec<char>| l@);
    assert(lm =~= lines(text@));
    let mut f = SettingsFields::new();
    let mut w: Option<u32> = None;
    let mut h: Option<u32> = None;
    let mut sp: Vec<String> = Vec::new();
    let mut i: usize = 0;
    assert(crate::meta::strs_view(sp@) =~= Seq::<Seq<char>>::empty());
    while i < ls.len()
        invariant
            i <= ls@.len(),
            lm == ls@.map_values(|l: Vec<char>| l@),
            settings_fold(lm.take(i as int)) == (f.model(), w, h, crate::meta::strs_view(sp@)),
            f.window_size is None,
        decreases ls.len() - i,
    {
        assert(lm.take(i + 1).drop_last() =~= lm.take(i as int));
        assert(lm.take(i + 1).last() == ls@[i as int]@);
        let t = trim_vec(&ls[i]);
        if t.len() > 0 && t[0] != '[' && t[0] != '#' {
            match split_once_vec(&t, '=') {
                Some((k0, v0)) => {
                    let k = trim_vec(&k0);
                    let val = trim_vec(&v0);
                    let lv = crate::text::lower_vec(&val);
                    if is_word(&k, "theme") {
                        let s = string_of(&val);
                        f.theme = Theme::parse(s.as_str());
                    } else if is_word(&k, "default_game") && val.len() > 0 {
                        f.default_game = Some(string_of(&val));
                    } else if is_word(&k, "window_width") {
                        w = crate::text::parse_u32_vec(&val);
                    } else if is_word(&k, "window_height") {
                        h = crate::text::parse_u32_vec(&val);
                    } else if is_word(&k, "drag_scroll_speed") {
                        let ghost before = crate::meta::strs_view(sp@);
                        let s = string_of(&val);
                        sp.push(s);
                        assert(crate::meta::strs_view(sp@) =~= before.push(s@));
                    } else if is_word(&k, "offline") {
                        f.offline = word_in(&lv, "true", "1", "yes", "on");
                    } else if is_word(&k, "preferred_servers") {
                        f.preferred_servers = crate::tools::comma_items_exec(&val);
                    } else if is_word(&k, "remember_window") {
                        f.remember_window = !word_in(&lv, "false", "0", "no", "off");
                    } else if is_word(&k, "lock_gui") {
                        f.lock_gui = !word_in(&lv, "false", "0", "no", "off");
                    }
                },
                None => {},
            }
        }
        i = i + 1;
    }
    assert(lm.take(i as int) =~= lm);
    match (w, h) {
        (Some(a), Some(b)) => {
            if a > 0 && b > 0 {
                f.window_size = Some((a, b));
            }
        },
        _ => {},
    }
    (f, sp)
}

/// The text of a flag.
pub open spec fn bool_text(b: bool) -> Seq<char> {
    if b { "true"@ } else { "false"@ }
}

/// The fixed lines of a `settings.ini` body.
pub open spec fn settings_head(f: FieldsM, speed: Seq<char>) -> Seq<char> {
    "[eidos]\n"@ + kv_text("theme"@, theme_token(f.0)) + kv_text("lock_gui"@, bool_text(f.3))
        + kv_text("drag_scroll_speed"@, speed) + kv_text("remember_window"@, bool_text(f.4))
}

/// The offline line, when it is set.
pub open spec fn offline_line(f: FieldsM) -> Seq<char> {
    if f.5 { kv_text("offline"@, "true"@) } else { Seq::empty() }
}

/// The server line, when there are servers.
pub open spec fn servers_line(f: FieldsM) -> Seq<char> {
    if f.6.len() > 0 { kv_text("preferred_servers"@, crate::tools::join_commas(f.6)) } else { Seq::empty() }
}

/// The default game line, when it is set.
pub open spec fn game_line(f: FieldsM) -> Seq<char> {
    match f.1 {
        Some(g) => kv_text("default_game"@, g),
        None => Seq::empty(),
    }
}

/// The window size lines, when it is set.
pub open spec fn size_lines(f: FieldsM) -> Seq<char> {
    match f.2 {
        Some((w, h)) => kv_text("window_width"@, dec(w as nat)) + kv_text("window_height"@, dec(h as nat)),
        None => Seq::empty(),
    }
}

/// A `settings.ini` body, with the drag-scroll speed written as `speed`.
pub open spec fn settings_text(f: FieldsM, speed: Seq<char>) -> Seq<char> {
    settings_head(f, speed) + offline_line(f) + servers_line(f) + game_line(f) + size_lines(f)
}

fn bool_str(b: bool) -> (s: &'static str)
    ensures
        s@ == bool_text(b),
{
    if b { "true" } else { "false" }
}

fn push_kv_str(out: &mut String, k: &str, v: &str)
    ensures
        final(out)@ == old(out)@ + kv_text(k@, v@),
{
    push_str(out, k);
    push_char(out, '=');
    push_str(out, v);
    push_char(out, '\n');
    assert(out@ =~= old(out)@ + kv_text(k@, v@));
}

/// Render settings as a `settings.ini` body, the drag-scroll speed written
/// as `speed`.
pub fn render_settings(f: &SettingsFields, speed: &str) -> (s: String)
    ensures
        s@ == settings_text(f.model(), speed@),
{
    let ghost m = f.model();
    let mut out = "[eidos]\n".to_owned();
    push_kv_str(&mut out, "theme", f.theme.as_str());
    push_kv_str(&mut out, "lock_gui", bool_str(f.lock_gui));
    push_kv_str(&mut out, "drag_scroll_speed", speed);
    push_kv_str(&mut out, "remember_window", bool_str(f.remember_window));
    let ghost p1 = out@;
    if f.offline {
        push_kv_str(&mut out, "offline", "true");
    }
    let ghost p2 = out@;
    assert(p2 =~= p1 + offline_line(m));
    if f.preferred_servers.len() > 0 {
        push_str(&mut out, "preferred_servers");
        push_char(&mut out, '=');
        crate::tools::push_commas(&mut out, &f.preferred_servers);
        push_char(&mut out, '\n');
    }
    let ghost p3 = out@;
    assert(p3 =~= p2 + servers_line(m));
    match &f.default_game {
        Some(g) => push_kv_str(&mut out, "default_game", g.as_str()),
        None => {},
    }
    let ghost p4 = out@;
    assert(p4 =~= p3 + game_line(m));
    match f.window_size {
        Some((w, h)) => {
            push_kv_str(&mut out, "window_width", u64_to_string(w as u64).as_str());
            push_kv_str(&mut out, "window_height", u64_to_string(h as u64).as_str());
        },
        None => {},
    }
    assert(out@ =~= p4 + size_lines(m));
    out
}

/// A server name a `preferred_servers` line carries unchanged: not empty,
/// trimmed, on one line and without a comma.
pub open spec fn server_name(s: Seq<char>) -> bool {
    s.len() > 0 && crate::tools::text_value(s) && forall|j: int| 0 <= j < s.len() ==> s[j] != ','
}

/// Settings that [`render_settings`] writes and [`parse_settings`] reads back
/// unchanged: a default game that is not empty and fits on its line, a window
/// size without a zero side, server names that survive the comma list, and a
/// speed text that fits on its line.
pub open spec fn writable_settings(f: FieldsM, speed: Seq<char>) -> bool {
    &&& match f.1 {
        Some(g) => g.len() > 0 && crate::tools::text_value(g),
        None => true,
    }
    &&& match f.2 {
        Some((w, h)) => w > 0 && h > 0,
        None => true,
    }
    &&& forall|i: int| 0 <= i < f.6.len() ==> server_name(#[trigger] f.6[i])
    &&& crate::tools::text_value(speed)
}

/// A key a settings line can carry.
spec fn line_key(k: Seq<char>) -> bool {
    crate::ini::plain_key(k) && forall|j: int| 0 <= j < k.len() ==> k[j] != '\n'
}

proof fn lemma_setting_keys()
    ensures
        line_key("theme"@),
        line_key("lock_gui"@),
        line_key("drag_scroll_speed"@),
        line_key("remember_window"@),
        line_key("offline"@),
        line_key("preferred_servers"@),
        line_key("default_game"@),
        line_key("window_width"@),
        line_key("window_height"@),
        "lock_gui"@ != "theme"@ && "lock_gui"@ != "default_game"@ && "lock_gui"@ != "window_width"@
            && "lock_gui"@ != "window_height"@ && "lock_gui"@ != "drag_scroll_speed"@ && "lock_gui"@ != "offline"@
            && "lock_gui"@ != "preferred_servers"@ && "lock_gui"@ != "remember_window"@,
        "drag_scroll_speed"@ != "theme"@ && "drag_scroll_speed"@ != "default_game"@
            && "drag_scroll_speed"@ != "window_width"@ && "drag_scroll_speed"@ != "window_height"@,
        "remember_window"@ != "theme"@ && "remember_window"@ != "default_game"@ && "remember_window"@ != "window_width"@
            && "remember_window"@ != "window_height"@ && "remember_window"@ != "drag_scroll_speed"@
            && "remember_window"@ != "offline"@ && "remember_window"@ != "preferred_servers"@,
        "offline"@ != "theme"@ && "offline"@ != "default_game"@ && "offline"@ != "window_width"@
            && "offline"@ != "window_height"@ && "offline"@ != "drag_scroll_speed"@,
        "preferred_servers"@ != "theme"@ && "preferred_servers"@ != "default_game"@
            && "preferred_servers"@ != "window_width"@ && "preferred_servers"@ != "window_height"@
            && "preferred_servers"@ != "drag_scroll_speed"@ && "preferred_servers"@ != "offline"@,
        "default_game"@ != "theme"@,
        "window_width"@ != "theme"@ && "window_width"@ != "default_game"@,
        "window_height"@ != "theme"@ && "window_height"@ != "default_game"@ && "window_height"@ != "window_width"@,
{
    reveal_strlit("theme");
    reveal_strlit("lock_gui");
    reveal_strlit("drag_scroll_speed");
    reveal_strlit("remember_window");
    reveal_strlit("offline");
    reveal_strlit("preferred_servers");
    reveal_strlit("default_game");
    reveal_strlit("window_width");
    reveal_strlit("window_height");
    assert("lock_gui"@[0] != "theme"@[0]);
    assert("lock_gui"@[0] != "default_game"@[0]);
    assert("lock_gui"@[0] != "window_width"@[0]);
    assert("lock_gui"@[0] != "window_height"@[0]);
    assert("lock_gui"@[0] != "drag_scroll_speed"@[0]);
    assert("lock_gui"@[0] != "offline"@[0]);
    assert("lock_gui"@[0] != "preferred_servers"@[0]);
    assert("lock_gui"@[0] != "remember_window"@[0]);
    assert("drag_scroll_speed"@[0] != "theme"@[0]);
    assert("drag_scroll_speed"@[1] != "default_game"@[1]);
    assert("drag_scroll_speed"@[0] != "window_width"@[0]);
    assert("drag_scroll_speed"@[0] != "window_height"@[0]);
    assert("remember_window"@[0] != "theme"@[0]);
    assert("remember_window"@[0] != "default_game"@[0]);
    assert("remember_window"@[0] != "window_width"@[0]);
    assert("remember_window"@[0] != "window_height"@[0]);
    assert("remember_window"@[0] != "drag_scroll_speed"@[0]);
    assert("remember_window"@[0] != "offline"@[0]);
    assert("remember_window"@[0] != "preferred_servers"@[0]);
    assert("offline"@[0] != "theme"@[0]);
    assert("offline"@[0] != "default_game"@[0]);
    assert("offline"@[0] != "window_width"@[0]);
    assert("offline"@[0] != "window_height"@[0]);
    assert("offline"@[0] != "drag_scroll_speed"@[0]);
    assert("preferred_servers"@[0] != "theme"@[0]);
    assert("preferred_servers"@[0] != "default_game"@[0]);
    assert("preferred_servers"@[0] != "window_width"@[0]);
    assert("preferred_servers"@[0] != "window_height"@[0]);
    assert("preferred_servers"@[0] != "drag_scroll_speed"@[0]);
    assert("preferred_servers"@[0] != "offline"@[0]);
    assert("default_game"@[0] != "theme"@[0]);
    assert("window_width"@[0] != "theme"@[0]);
    assert("window_width"@[0] != "default_game"@[0]);
    assert("window_height"@[0] != "theme"@[0]);
    assert("window_height"@[0] != "default_game"@[0]);
    assert("window_height"@.len() != "window_width"@.len());
}

/// Appending one written `key=value` line to a text that ends a line applies
/// that line to what the text sets.
proof fn lemma_fold_kv_text(t: Seq<char>, k: Seq<char>, v: Seq<char>)
    requires
        t.len() == 0 || t.last() == '\n',
        line_key(k),
        crate::tools::text_value(v),
    ensures
        settings_fold(lines(t + kv_text(k, v))) == settings_step(settings_fold(lines(t)), k, v),
        (t + kv_text(k, v)).last() == '\n',
{
    crate::ini::lemma_kv_text(k, v);
    crate::text::lemma_lines_append(t, kv_text(k, v));
    let l = k + seq!['='] + v;
    assert(lines(t + kv_text(k, v)) =~= lines(t).push(l));
    assert(lines(t).push(l).drop_last() =~= lines(t));
    assert(lines(t).push(l).last() == l);
    let (k0, v0) = split_once(l, '=').unwrap();
    assert(trim(k0) == k && v0 == v);
    assert(l[0] == k[0]);
    assert((t + kv_text(k, v)).last() == kv_text(k, v).last());
}

proof fn lemma_word_value(w: Seq<char>)
    requires
        w.len() > 0,
        !crate::text::is_ws(w[0]),
        !crate::text::is_ws(w.last()),
        forall|j: int| 0 <= j < w.len() ==> w[j] != '\n',
    ensures
        crate::tools::text_value(w),
{
    crate::text::lemma_trim_fixed(w);
}

proof fn lemma_number_value(n: u32)
    ensures
        crate::tools::text_value(dec(n as nat)),
        crate::text::parse_u32_spec(dec(n as nat)) == Some(n),
{
    crate::text::lemma_parse_dec(n as u64);
    crate::text::lemma_dec_digits(n as nat);
    let d = dec(n as nat);
    assert forall|j: int| 0 <= j < d.len() implies d[j] != '\n' by {
        assert(crate::text::is_digit(d[j]));
    }
}

proof fn lemma_flag_words(b: bool)
    ensures
        !off_word(bool_text(b)) == b,
        on_word("true"@),
        crate::tools::text_value(bool_text(b)),
        crate::tools::text_value("true"@),
{
    reveal_strlit("true");
    reveal_strlit("false");
    reveal_strlit("0");
    reveal_strlit("1");
    reveal_strlit("no");
    reveal_strlit("off");
    reveal_strlit("yes");
    reveal_strlit("on");
    lemma_word_value("true"@);
    lemma_word_value("false"@);
    assert(lower("true"@) =~= "true"@);
    assert(lower("false"@) =~= "false"@);
    assert("true"@.len() != "false"@.len());
    assert("true"@[0] != "0"@[0]);
    assert("true"@[0] != "no"@[0]);
    assert("true"@[0] != "off"@[0]);
}

proof fn lemma_settings_head_fold(f: FieldsM, speed: Seq<char>)
    requires
        crate::tools::text_value(speed),
    ensures
        settings_fold(lines(settings_head(f, speed)))
            == ((f.0, None::<Seq<char>>, None::<(u32, u32)>, f.3, f.4, false, Seq::<Seq<char>>::empty()), None::<u32>, None::<u32>, seq![speed]),
        settings_head(f, speed).last() == '\n',
{
    reveal_strlit("[eidos]\n");
    reveal_strlit("system");
    reveal_strlit("light");
    reveal_strlit("dark");
    lemma_setting_keys();
    let h = seq!['[', 'e', 'i', 'd', 'o', 's', ']'];
    let t0 = "[eidos]\n"@;
    assert(t0 =~= h + seq!['\n']);
    crate::text::lemma_lines_one(h);
    assert(crate::text::strip_cr(h) == h);
    crate::text::lemma_trim_fixed(h);
    assert(seq![h].drop_last() =~= Seq::<Seq<char>>::empty());
    let init: SettingsAcc = ((Theme::System, None, None, true, true, false, Seq::empty()), None, None, Seq::empty());
    assert(settings_fold(Seq::<Seq<char>>::empty()) == init);
    assert(settings_fold(lines(t0)) == init);
    lemma_flag_words(f.3);
    lemma_flag_words(f.4);
    lemma_word_value(theme_token(f.0));
    lemma_theme_round_trip(f.0);
    let t1 = t0 + kv_text("theme"@, theme_token(f.0));
    lemma_fold_kv_text(t0, "theme"@, theme_token(f.0));
    let t2 = t1 + kv_text("lock_gui"@, bool_text(f.3));
    lemma_fold_kv_text(t1, "lock_gui"@, bool_text(f.3));
    let t3 = t2 + kv_text("drag_scroll_speed"@, speed);
    lemma_fold_kv_text(t2, "drag_scroll_speed"@, speed);
    assert(Seq::<Seq<char>>::empty().push(speed) =~= seq![speed]);
    lemma_fold_kv_text(t3, "remember_window"@, bool_text(f.4));
}

proof fn lemma_settings_network_fold(f: FieldsM, t: Seq<char>, acc: SettingsAcc)
    requires
        t.last() == '\n',
        settings_fold(lines(t)) == acc,
        acc.0.5 == false,
        acc.0.6 == Seq::<Seq<char>>::empty(),
        forall|i: int| 0 <= i < f.6.len() ==> server_name(#[trigger] f.6[i]),
    ensures
        settings_fold(lines(t + offline_line(f) + servers_line(f)))
            == ((acc.0.0, acc.0.1, acc.0.2, acc.0.3, acc.0.4, f.5, f.6), acc.1, acc.2, acc.3),
        (t + offline_line(f) + servers_line(f)).last() == '\n',
{
    lemma_setting_keys();
    lemma_flag_words(true);
    let t5 = t + offline_line(f);
    if f.5 {
        lemma_fold_kv_text(t, "offline"@, "true"@);
    } else {
        assert(t5 =~= t);
    }
    let a5: SettingsAcc = ((acc.0.0, acc.0.1, acc.0.2, acc.0.3, acc.0.4, f.5, acc.0.6), acc.1, acc.2, acc.3);
    assert(settings_fold(lines(t5)) == a5);
    let t6 = t5 + servers_line(f);
    if f.6.len() > 0 {
        crate::tools::lemma_join_commas(f.6);
        crate::tools::lemma_comma_items_fixed(f.6);
        lemma_fold_kv_text(t5, "preferred_servers"@, crate::tools::join_commas(f.6));
    } else {
        assert(t6 =~= t5);
        assert(f.6 =~= Seq::<Seq<char>>::empty());
    }
}

proof fn lemma_settings_window_fold(f: FieldsM, t: Seq<char>, acc: SettingsAcc)
    requires
        t.last() == '\n',
        settings_fold(lines(t)) == acc,
        acc.0.1 == None::<Seq<char>>,
        acc.1 == None::<u32>,
        acc.2 == None::<u32>,
        match f.1 {
            Some(g) => g.len() > 0 && crate::tools::text_value(g),
            None => true,
        },
    ensures
        settings_fold(lines(t + game_line(f) + size_lines(f))) == ({
            let (w, h) = match f.2 {
                Some((w, h)) => (Some(w), Some(h)),
                None => (None, None),
            };
            ((acc.0.0, f.1, acc.0.2, acc.0.3, acc.0.4, acc.0.5, acc.0.6), w, h, acc.3)
        }),
{
    lemma_setting_keys();
    let t7 = t + game_line(f);
    match f.1 {
        Some(g) => {
            lemma_fold_kv_text(t, "default_game"@, g);
        },
        None => {
            assert(t7 =~= t);
        },
    }
    let a7: SettingsAcc = ((acc.0.0, f.1, acc.0.2, acc.0.3, acc.0.4, acc.0.5, acc.0.6), None, None, acc.3);
    assert(settings_fold(lines(t7)) == a7);
    assert(t7.last() == '\n');
    let t8 = t7 + size_lines(f);
    match f.2 {
        Some((w, hh)) => {
            lemma_number_value(w);
            lemma_number_value(hh);
            let tw = t7 + kv_text("window_width"@, dec(w as nat));
            lemma_fold_kv_text(t7, "window_width"@, dec(w as nat));
            lemma_fold_kv_text(tw, "window_height"@, dec(hh as nat));
            assert(t8 =~= tw + kv_text("window_height"@, dec(hh as nat)));
        },
        None => {
            assert(t8 =~= t7);
        },
    }
}

/// Settings written by [`render_settings`] parse back as themselves, with the
/// speed text read back as the one drag-scroll-speed value, whenever they are
/// fit to write.
pub proof fn lemma_settings_round_trip(f: FieldsM, speed: Seq<char>)
    requires
        writable_settings(f, speed),
    ensures
        parse_settings_spec(settings_text(f, speed)) == (f, seq![speed]),
{
    let t4 = settings_head(f, speed);
    lemma_settings_head_fold(f, speed);
    let a4 = settings_fold(lines(t4));
    lemma_settings_network_fold(f, t4, a4);
    let t6 = t4 + offline_line(f) + servers_line(f);
    let a6 = settings_fold(lines(t6));
    lemma_settings_window_fold(f, t6, a6);
    assert(settings_text(f, speed) =~= t6 + game_line(f) + size_lines(f));
}

/// Credentials that [`render_nexus_creds`] writes and [`parse_nexus_creds`]
/// reads back unchanged: tokens that are absent or non-empty, trimmed and on
/// one line, and no check time without a known preference.
pub open spec fn writable_creds(c: CredsM) -> bool {
    &&& match c.0 {
        Some(a) => a.len() > 0 && crate::tools::text_value(a),
        None => true,
    }
    &&& match c.1 {
        Some(r) => r.len() > 0 && crate::tools::text_value(r),
        None => true,
    }
    &&& c.3 is None ==> c.4 == 0
}

/// Whether a line is a `key=value` line whose trimmed key is `want`.
spec fn keyed(l: Seq<char>, want: Seq<char>) -> bool {
    match split_once(trim(l), '=') {
        Some((k, _)) => trim(k) == want,
        None => false,
    }
}

/// The lines a written credential line is: none for an empty value.
spec fn item_lines(k: Seq<char>, v: Seq<char>) -> Seq<Seq<char>> {
    if v.len() == 0 { Seq::empty() } else { seq![k + seq!['='] + v] }
}

proof fn lemma_cred_val_skip(a: Seq<Seq<char>>, b: Seq<Seq<char>>, want: Seq<char>)
    requires
        forall|i: int| 0 <= i < a.len() ==> !keyed(#[trigger] a[i], want),
    ensures
        cred_val(a + b, want) == cred_val(b, want),
    decreases a.len(),
{
    if a.len() > 0 {
        assert((a + b)[0] == a[0]);
        assert(!keyed(a[0], want));
        assert((a + b).drop_first() =~= a.drop_first() + b);
        assert forall|i: int| 0 <= i < a.drop_first().len() implies !keyed(#[trigger] a.drop_first()[i], want) by {
            assert(a.drop_first()[i] == a[i + 1]);
        }
        lemma_cred_val_skip(a.drop_first(), b, want);
    } else {
        assert(a + b =~= b);
    }
}

proof fn lemma_cred_item(k: Seq<char>, v: Seq<char>, rest: Seq<char>, want: Seq<char>)
    requires
        line_key(k),
        crate::tools::text_value(v),
    ensures
        lines(kv_line(k, v) + rest) == item_lines(k, v) + lines(rest),
        cred_val(item_lines(k, v) + lines(rest), want)
            == (if k == want && v.len() > 0 { Some(v) } else { cred_val(lines(rest), want) }),
        kv_line(k, v).len() == 0 || kv_line(k, v).last() == '\n',
{
    if v.len() == 0 {
        assert(kv_line(k, v) + rest =~= rest);
        assert(item_lines(k, v) + lines(rest) =~= lines(rest));
    } else {
        crate::ini::lemma_kv_text(k, v);
        assert(kv_line(k, v) == kv_text(k, v));
        crate::text::lemma_lines_append(kv_text(k, v), rest);
        let l = k + seq!['='] + v;
        let (k0, v0) = split_once(l, '=').unwrap();
        assert(trim(k0) == k && v0 == v);
        let ls = item_lines(k, v) + lines(rest);
        assert(ls[0] == l);
        assert(ls.drop_first() =~= lines(rest));
        if k != want {
            assert(!keyed(l, want));
        }
    }
}

/// No carried-over line bears a key the credential file owns.
proof fn lemma_kept_unkeyed(ls: Seq<Seq<char>>, want: Seq<char>)
    requires
        owned_keys().contains(want),
        forall|i: int, j: int| 0 <= i < ls.len() && 0 <= j < ls[i].len() ==> ls[i][j] != '\n',
    ensures
        forall|i: int| 0 <= i < lines(kept_lines(ls)).len() ==> !keyed(#[trigger] lines(kept_lines(ls))[i], want),
        kept_lines(ls).len() == 0 || kept_lines(ls).last() == '\n',
    decreases ls.len(),
{
    if ls.len() > 0 {
        let q = ls.drop_last();
        assert forall|i: int, j: int| 0 <= i < q.len() && 0 <= j < q[i].len() implies q[i][j] != '\n' by {
            assert(q[i] == ls[i]);
        }
        lemma_kept_unkeyed(q, want);
        let prev = kept_lines(q);
        let s = ls.last();
        let t = trim(s);
        crate::text::lemma_trim_idem(s);
        if !(t.len() == 0 || t[0] == '[' || t[0] == '#') {
            match split_once(t, '=') {
                Some((k, _)) => {
                    if !owned_keys().contains(trim(k)) {
                        let off = s.len() - crate::text::trim_start(s).len();
                        assert forall|j: int| 0 <= j < t.len() implies t[j] != '\n' by {
                            assert(t[j] == s[j + off]);
                            assert(ls[ls.len() - 1][j + off] != '\n');
                        }
                        crate::text::lemma_lines_one(t);
                        assert(crate::text::strip_cr(t) == t);
                        crate::text::lemma_lines_append(prev, t + seq!['\n']);
                        assert(kept_lines(ls) == prev + (t + seq!['\n']));
                        assert(lines(kept_lines(ls)) == lines(prev) + seq![t]);
                        assert(!keyed(t, want));
                        assert forall|i: int| 0 <= i < lines(kept_lines(ls)).len() implies !keyed(#[trigger] lines(kept_lines(ls))[i], want) by {
                            if i < lines(prev).len() {
                                assert(lines(kept_lines(ls))[i] == lines(prev)[i]);
                            }
                        }
                    }
                },
                None => {},
            }
        }
    } else {
        assert(lines(Seq::<char>::empty()) =~= Seq::<Seq<char>>::empty());
    }
}

proof fn lemma_cred_keys()
    ensures
        line_key("access_token"@),
        line_key("refresh_token"@),
        line_key("expires_at"@),
        line_key("adult_ok"@),
        line_key("adult_checked_at"@),
        "access_token"@ != "refresh_token"@,
        "access_token"@ != "expires_at"@,
        "access_token"@ != "adult_ok"@,
        "access_token"@ != "adult_checked_at"@,
        "refresh_token"@ != "expires_at"@,
        "refresh_token"@ != "adult_ok"@,
        "refresh_token"@ != "adult_checked_at"@,
        "expires_at"@ != "adult_ok"@,
        "expires_at"@ != "adult_checked_at"@,
        "adult_ok"@ != "adult_checked_at"@,
        owned_keys().contains("access_token"@),
        owned_keys().contains("refresh_token"@),
        owned_keys().contains("expires_at"@),
        owned_keys().contains("adult_ok"@),
        owned_keys().contains("adult_checked_at"@),
{
    reveal_strlit("access_token");
    reveal_strlit("refresh_token");
    reveal_strlit("expires_at");
    reveal_strlit("adult_ok");
    reveal_strlit("adult_checked_at");
    assert("access_token"@[0] != "refresh_token"@[0]);
    assert("access_token"@[0] != "expires_at"@[0]);
    assert("access_token"@[1] != "adult_ok"@[1]);
    assert("access_token"@[1] != "adult_checked_at"@[1]);
    assert("refresh_token"@[0] != "expires_at"@[0]);
    assert("refresh_token"@[0] != "adult_ok"@[0]);
    assert("refresh_token"@[0] != "adult_checked_at"@[0]);
    assert("expires_at"@[0] != "adult_ok"@[0]);
    assert("expires_at"@[0] != "adult_checked_at"@[0]);
    assert("adult_ok"@.len() != "adult_checked_at"@.len());
    assert(owned_keys()[0] == "access_token"@);
    assert(owned_keys()[1] == "refresh_token"@);
    assert(owned_keys()[2] == "expires_at"@);
    assert(owned_keys()[3] == "adult_ok"@);
    assert(owned_keys()[4] == "adult_checked_at"@);
}

/// The values the owned lines of a credential text carry, empty where a line
/// is left out: access, refresh, expiry, preference, check time.
spec fn cred_values(c: CredsM) -> (Seq<char>, Seq<char>, Seq<char>, Seq<char>, Seq<char>) {
    (
        trim(or_empty(c.0)),
        trim(or_empty(c.1)),
        if c.2 != 0 { dec(c.2 as nat) } else { Seq::empty() },
        match c.3 {
            Some(ok) => if ok { "1"@ } else { "0"@ },
            None => Seq::empty(),
        },
        match c.3 {
            Some(_) => dec(c.4 as nat),
            None => Seq::empty(),
        },
    )
}

proof fn lemma_cred_values(c: CredsM)
    requires
        writable_creds(c),
    ensures
        crate::tools::text_value(cred_values(c).0),
        crate::tools::text_value(cred_values(c).1),
        crate::tools::text_value(cred_values(c).2),
        crate::tools::text_value(cred_values(c).3),
        crate::tools::text_value(cred_values(c).4),
        (if cred_values(c).0.len() > 0 { Some(cred_values(c).0) } else { None }) == c.0,
        (if cred_values(c).1.len() > 0 { Some(cred_values(c).1) } else { None }) == c.1,
        num_val(if cred_values(c).2.len() > 0 { Some(cred_values(c).2) } else { None }) == c.2,
        flag_val(if cred_values(c).3.len() > 0 { Some(cred_values(c).3) } else { None }) == c.3,
        num_val(if cred_values(c).4.len() > 0 { Some(cred_values(c).4) } else { None }) == c.4,
{
    reveal_strlit("0");
    reveal_strlit("1");
    reveal_strlit("true");
    reveal_strlit("false");
    assert(trim(Seq::<char>::empty()) =~= Seq::<char>::empty()) by {
        assert(crate::text::trim_start(Seq::<char>::empty()) =~= Seq::<char>::empty());
    }
    lemma_word_value("0"@);
    lemma_word_value("1"@);
    lemma_number_value_u64(c.2);
    lemma_number_value_u64(c.4);
    assert("1"@ != "0"@);
}

proof fn lemma_number_value_u64(n: u64)
    ensures
        crate::tools::text_value(dec(n as nat)),
        parse_u64_spec(dec(n as nat)) == Some(n),
        dec(n as nat).len() > 0,
{
    crate::text::lemma_parse_dec(n);
    crate::text::lemma_dec_digits(n as nat);
    let d = dec(n as nat);
    assert forall|j: int| 0 <= j < d.len() implies d[j] != '\n' by {
        assert(crate::text::is_digit(d[j]));
    }
}

/// The credential body after its header, nested line by line.
spec fn creds_body(existing: Seq<char>, c: CredsM) -> Seq<char> {
    let (a, r, e, f, d) = cred_values(c);
    kv_line("access_token"@, a) + (kv_line("refresh_token"@, r) + (kv_line("expires_at"@, e) + (kv_line(
        "adult_ok"@,
        f,
    ) + (kv_line("adult_checked_at"@, d) + kept_lines(lines(existing))))))
}

proof fn lemma_creds_shape(existing: Seq<char>, c: CredsM)
    ensures
        lines(render_creds_spec(existing, c)) == seq![seq!['[', 'N', 'e', 'x', 'u', 's', ']']] + lines(creds_body(existing, c)),
{
    reveal_strlit("[Nexus]\n");
    let (a, r, e, f, d) = cred_values(c);
    let h = seq!['[', 'N', 'e', 'x', 'u', 's', ']'];
    let hh = "[Nexus]\n"@;
    assert(hh =~= h + seq!['\n']);
    let ta = kv_line("access_token"@, a);
    let tr = kv_line("refresh_token"@, r);
    let te = kv_line("expires_at"@, e);
    let tf = kv_line("adult_ok"@, f);
    let td = kv_line("adult_checked_at"@, d);
    let k = kept_lines(lines(existing));
    let e0 = if c.2 != 0 { kv_line("expires_at"@, dec(c.2 as nat)) } else { Seq::<char>::empty() };
    assert(e0 == te) by {
        if c.2 == 0 {
            assert(te =~= Seq::<char>::empty());
        }
    }
    let m0 = match c.3 {
        Some(ok) => kv_line("adult_ok"@, if ok { "1"@ } else { "0"@ }) + kv_line("adult_checked_at"@, dec(c.4 as nat)),
        None => Seq::<char>::empty(),
    };
    assert(m0 =~= tf + td);
    assert(render_creds_spec(existing, c) == hh + ta + tr + e0 + m0 + k);
    let body = creds_body(existing, c);
    assert(body == ta + (tr + (te + (tf + (td + k)))));
    vstd::seq_lib::lemma_concat_associative(tf, td, k);
    vstd::seq_lib::lemma_concat_associative(te, tf + td, k);
    vstd::seq_lib::lemma_concat_associative(tr, te + (tf + td), k);
    vstd::seq_lib::lemma_concat_associative(ta, tr + (te + (tf + td)), k);
    vstd::seq_lib::lemma_concat_associative(hh, ta + (tr + (te + (tf + td))), k);
    vstd::seq_lib::lemma_concat_associative(tr, te, tf + td);
    vstd::seq_lib::lemma_concat_associative(ta, tr + te, tf + td);
    vstd::seq_lib::lemma_concat_associative(hh, ta + (tr + te), tf + td);
    vstd::seq_lib::lemma_concat_associative(ta, tr, te);
    vstd::seq_lib::lemma_concat_associative(hh, ta + tr, te);
    vstd::seq_lib::lemma_concat_associative(hh, ta, tr);
    assert(hh + ta + tr + te + (tf + td) + k == hh + body);
    crate::text::lemma_lines_cons(h, creds_body(existing, c));
    assert(crate::text::strip_cr(h) == h);
}

/// The value the rendered text gives for one owned key.
#[verifier::spinoff_prover]
proof fn lemma_creds_lookup(existing: Seq<char>, c: CredsM, w: Seq<char>)
    requires
        writable_creds(c),
        owned_keys().contains(w),
    ensures
        cred_val(lines(render_creds_spec(existing, c)), w) == ({
            let (a, r, e, f, d) = cred_values(c);
            if "access_token"@ == w && a.len() > 0 { Some(a) }
            else if "refresh_token"@ == w && r.len() > 0 { Some(r) }
            else if "expires_at"@ == w && e.len() > 0 { Some(e) }
            else if "adult_ok"@ == w && f.len() > 0 { Some(f) }
            else if "adult_checked_at"@ == w && d.len() > 0 { Some(d) }
            else { None }
        }),
{
    lemma_cred_keys();
    lemma_cred_values(c);
    let (a, r, e, f, d) = cred_values(c);
    let kept = kept_lines(lines(existing));
    let t5 = kv_line("adult_checked_at"@, d) + kept;
    let t4 = kv_line("adult_ok"@, f) + t5;
    let t3 = kv_line("expires_at"@, e) + t4;
    let t2 = kv_line("refresh_token"@, r) + t3;
    let t1 = kv_line("access_token"@, a) + t2;
    assert(t1 == creds_body(existing, c));
    let h = seq!['[', 'N', 'e', 'x', 'u', 's', ']'];
    lemma_creds_shape(existing, c);
    assert(!keyed(h, w)) by {
        crate::text::lemma_trim_fixed(h);
        crate::text::lemma_find_char_none(h, '=');
    }
    lemma_cred_val_skip(seq![h], lines(t1), w);
    crate::text::lemma_lines_no_newline(existing);
    lemma_kept_unkeyed(lines(existing), w);
    lemma_cred_val_skip(lines(kept), Seq::empty(), w);
    assert(lines(kept) + Seq::<Seq<char>>::empty() =~= lines(kept));
    lemma_cred_item("adult_checked_at"@, d, kept, w);
    lemma_cred_item("adult_ok"@, f, t5, w);
    lemma_cred_item("expires_at"@, e, t4, w);
    lemma_cred_item("refresh_token"@, r, t3, w);
    lemma_cred_item("access_token"@, a, t2, w);
}

/// Credentials rendered over any existing `nexus.ini` read back as
/// themselves: the owned lines of the old file never shadow the new ones.
pub proof fn lemma_creds_round_trip(existing: Seq<char>, c: CredsM)
    requires
        writable_creds(c),
    ensures
        parse_creds_spec(render_creds_spec(existing, c)) == c,
{
    lemma_cred_keys();
    lemma_cred_values(c);
    lemma_creds_lookup(existing, c, "access_token"@);
    lemma_creds_lookup(existing, c, "refresh_token"@);
    lemma_creds_lookup(existing, c, "expires_at"@);
    lemma_creds_lookup(existing, c, "adult_ok"@);
    lemma_creds_lookup(existing, c, "adult_checked_at"@);
}

} // verus!
