//! The mod list as CSV in Mod Organizer 2's export shape: CRLF line ends,
//! every string cell quoted, the Nexus id bare.

use vstd::prelude::*;

use crate::backup::{civil, wrap_i64, year_text};
use crate::categories::{first_positive, parse_primary, row_of, CategoryFactory};
use crate::meta::{number_of, string_of_key, ModMeta};
use crate::modlist::{is_separator_spec, ModEntry};
use crate::text::{
    chars_of, dec, dec_pad, dec_pad_vec, push_char, push_chars, push_str, split_on, u64_to_string,
};

verus! {

/// Which rows an export covers.
#[derive(Debug, Clone, Copy, PartialEq, Eq, Structural)]
pub enum ExportScope {
    /// Every mod in the list.
    All,
    /// Only the enabled ones.
    Active,
}

/// The thirteen columns, in Mod Organizer 2's order.
#[derive(Debug, Clone, Copy, PartialEq, Eq, Structural)]
pub enum Column {
    Priority,
    Status,
    Name,
    Note,
    PrimaryCategory,
    Author,
    Uploader,
    NexusId,
    NexusUrl,
    UploaderUrl,
    Version,
    InstallDate,
    DownloadFileName,
}

/// Every column, in Mod Organizer 2's order.
pub open spec fn all_columns() -> Seq<Column> {
    seq![
        Column::Priority,
        Column::Status,
        Column::Name,
        Column::Note,
        Column::PrimaryCategory,
        Column::Author,
        Column::Uploader,
        Column::NexusId,
        Column::NexusUrl,
        Column::UploaderUrl,
        Column::Version,
        Column::InstallDate,
        Column::DownloadFileName,
    ]
}

/// The header cell of a column.
pub open spec fn header_spec(c: Column) -> Seq<char> {
    match c {
        Column::Priority => "#Mod_Priority"@,
        Column::Status => "#Mod_Status"@,
        Column::Name => "#Mod_Name"@,
        Column::Note => "#Note"@,
        Column::PrimaryCategory => "#Primary_Category"@,
        Column::Author => "#Mod_Author"@,
        Column::Uploader => "#Mod_Uploader"@,
        Column::NexusId => "#Nexus_ID"@,
        Column::NexusUrl => "#Mod_Nexus_URL"@,
        Column::UploaderUrl => "#Mod_Uploader_URL"@,
        Column::Version => "#Mod_Version"@,
        Column::InstallDate => "#Install_Date"@,
        Column::DownloadFileName => "#Download_File_Name"@,
    }
}

/// The short label of a column, for a column picker.
pub open spec fn label_spec(c: Column) -> Seq<char> {
    match c {
        Column::Priority => "Priority"@,
        Column::Status => "Enabled"@,
        Column::Name => "Name"@,
        Column::Note => "Note"@,
        Column::PrimaryCategory => "Category"@,
        Column::Author => "Author"@,
        Column::Uploader => "Uploader"@,
        Column::NexusId => "Nexus id"@,
        Column::NexusUrl => "Nexus URL"@,
        Column::UploaderUrl => "Uploader URL"@,
        Column::Version => "Version"@,
        Column::InstallDate => "Installed"@,
        Column::DownloadFileName => "Archive"@,
    }
}

impl Column {
    /// Every column, in Mod Organizer 2's order; a full export emits exactly these.
    pub fn all() -> (r: Vec<Column>)
        ensures
            r@ == all_columns(),
    {
        let r = vec![
            Column::Priority,
            Column::Status,
            Column::Name,
            Column::Note,
            Column::PrimaryCategory,
            Column::Author,
            Column::Uploader,
            Column::NexusId,
            Column::NexusUrl,
            Column::UploaderUrl,
            Column::Version,
            Column::InstallDate,
            Column::DownloadFileName,
        ];
        assert(r@ =~= all_columns());
        r
    }

    /// The header cell Mod Organizer 2 writes.
    pub fn header(self) -> (r: &'static str)
        ensures
            r@ == header_spec(self),
    {
        match self {
            Column::Priority => "#Mod_Priority",
            Column::Status => "#Mod_Status",
            Column::Name => "#Mod_Name",
            Column::Note => "#Note",
            Column::PrimaryCategory => "#Primary_Category",
            Column::Author => "#Mod_Author",
            Column::Uploader => "#Mod_Uploader",
            Column::NexusId => "#Nexus_ID",
            Column::NexusUrl => "#Mod_Nexus_URL",
            Column::UploaderUrl => "#Mod_Uploader_URL",
            Column::Version => "#Mod_Version",
            Column::InstallDate => "#Install_Date",
            Column::DownloadFileName => "#Download_File_Name",
        }
    }

    /// A short label for a column picker.
    pub fn label(self) -> (r: &'static str)
        ensures
            r@ == label_spec(self),
    {
        match self {
            Column::Priority => "Priority",
            Column::Status => "Enabled",
            Column::Name => "Name",
            Column::Note => "Note",
            Column::PrimaryCategory => "Category",
            Column::Author => "Author",
            Column::Uploader => "Uploader",
            Column::NexusId => "Nexus id",
            Column::NexusUrl => "Nexus URL",
            Column::UploaderUrl => "Uploader URL",
            Column::Version => "Version",
            Column::InstallDate => "Installed",
            Column::DownloadFileName => "Archive",
        }
    }

    /// Whether the cell is quoted: every string is, the Nexus id is not.
    pub fn quoted(self) -> (b: bool)
        ensures
            b == (self != Column::NexusId),
    {
        self != Column::NexusId
    }

    /// Whether there is no source for this column at all: none any more.
    pub fn is_untracked(self) -> (b: bool)
        ensures
            !b,
    {
        false
    }
}

/// `s` with each `"` doubled.
pub open spec fn double_quotes(s: Seq<char>) -> Seq<char>
    decreases s.len(),
{
    if s.len() == 0 {
        Seq::empty()
    } else if s.last() == '"' {
        double_quotes(s.drop_last()) + seq!['"', '"']
    } else {
        double_quotes(s.drop_last()).push(s.last())
    }
}

/// A quoted CSV field.
pub open spec fn quote_spec(s: Seq<char>) -> Seq<char> {
    seq!['"'] + double_quotes(s) + seq!['"']
}

/// Quote a CSV string field: wrapped in double quotes, embedded quotes doubled.
pub fn csv_quote(s: &str) -> (r: String)
    ensures
        r@ == quote_spec(s@),
{
    let v = chars_of(s);
    let mut out = String::new();
    push_char(&mut out, '"');
    let mut i: usize = 0;
    while i < v.len()
        invariant
            i <= v@.len(),
            out@ == seq!['"'] + double_quotes(v@.take(i as int)),
        decreases v.len() - i,
    {
        assert(v@.take(i + 1).drop_last() =~= v@.take(i as int));
        if v[i] == '"' {
            push_char(&mut out, '"');
            push_char(&mut out, '"');
        } else {
            push_char(&mut out, v[i]);
        }
        assert(out@ =~= seq!['"'] + double_quotes(v@.take(i + 1)));
        i = i + 1;
    }
    assert(v@.take(i as int) =~= v@);
    push_char(&mut out, '"');
    out
}

/// `s` without its commas.
pub open spec fn drop_commas(s: Seq<char>) -> Seq<char>
    decreases s.len(),
{
    if s.len() == 0 {
        Seq::empty()
    } else if s.last() == ',' {
        drop_commas(s.drop_last())
    } else {
        drop_commas(s.drop_last()).push(s.last())
    }
}

fn drop_commas_exec(s: &str) -> (r: String)
    ensures
        r@ == drop_commas(s@),
{
    let v = chars_of(s);
    let mut out = String::new();
    let mut i: usize = 0;
    while i < v.len()
        invariant
            i <= v@.len(),
            out@ == drop_commas(v@.take(i as int)),
        decreases v.len() - i,
    {
        assert(v@.take(i + 1).drop_last() =~= v@.take(i as int));
        if v[i] != ',' {
            push_char(&mut out, v[i]);
        }
        i = i + 1;
    }
    assert(v@.take(i as int) =~= v@);
    out
}

/// An optional text, empty when absent.
pub open spec fn or_empty(o: Option<Seq<char>>) -> Seq<char> {
    match o {
        Some(s) => s,
        None => Seq::empty(),
    }
}

/// The name of a mod's primary category: the first positive id of its
/// `category` field, looked up in the catalog; empty when there is none.
pub open spec fn category_cell(g: Seq<(Seq<char>, Seq<char>)>, cats: Seq<crate::categories::CatM>) -> Seq<char> {
    match string_of_key(g, "category"@) {
        Some(raw) => match first_positive(split_on(raw, ',')) {
            Some(id) => match row_of(cats, id) {
                Some(c) => c.1,
                None => Seq::empty(),
            },
            None => Seq::empty(),
        },
        None => Seq::empty(),
    }
}

/// The Nexus id a row exports: the mod id, or 0.
pub open spec fn nexus_id(g: Seq<(Seq<char>, Seq<char>)>) -> nat {
    match number_of(g, "modid"@) {
        Some(n) => n as nat,
        None => 0,
    }
}

/// The Nexus page of a mod, when it has an id and a game domain is known.
pub open spec fn nexus_url(g: Seq<(Seq<char>, Seq<char>)>, domain: Seq<char>) -> Seq<char> {
    if nexus_id(g) > 0 && domain.len() > 0 {
        "https://www.nexusmods.com/"@ + domain + "/mods/"@ + dec(nexus_id(g))
    } else {
        Seq::empty()
    }
}

/// The unquoted value of one cell.
pub open spec fn cell_value(
    c: Column,
    position: nat,
    e: ModEntry,
    g: Seq<(Seq<char>, Seq<char>)>,
    date: Seq<char>,
    cats: Seq<crate::categories::CatM>,
    domain: Seq<char>,
) -> Seq<char> {
    match c {
        Column::Priority => dec_pad(position, 4),
        Column::Status => if e.enabled { seq!['+'] } else { seq!['-'] },
        Column::Name => e.name@,
        Column::Note => drop_commas(or_empty(string_of_key(g, "notes"@))),
        Column::PrimaryCategory => category_cell(g, cats),
        Column::Author => or_empty(string_of_key(g, "author"@)),
        Column::Uploader => or_empty(string_of_key(g, "uploader"@)),
        Column::NexusId => dec(nexus_id(g)),
        Column::NexusUrl => nexus_url(g, domain),
        Column::UploaderUrl => or_empty(string_of_key(g, "uploaderUrl"@)),
        Column::Version => or_empty(string_of_key(g, "version"@)),
        Column::InstallDate => date,
        Column::DownloadFileName => or_empty(string_of_key(g, "installationFile"@)),
    }
}

/// One cell as written: quoted unless it is the Nexus id.
pub open spec fn cell_text(c: Column, value: Seq<char>) -> Seq<char> {
    if c != Column::NexusId { quote_spec(value) } else { value }
}

/// The cells of the first `columns.len()` columns of a row, joined with `,`.
pub open spec fn row_text(
    columns: Seq<Column>,
    position: nat,
    e: ModEntry,
    g: Seq<(Seq<char>, Seq<char>)>,
    date: Seq<char>,
    cats: Seq<crate::categories::CatM>,
    domain: Seq<char>,
) -> Seq<char>
    decreases columns.len(),
{
    if columns.len() == 0 {
        Seq::empty()
    } else {
        let c = columns.last();
        let cell = cell_text(c, cell_value(c, position, e, g, date, cats, domain));
        if columns.len() == 1 {
            cell
        } else {
            row_text(columns.drop_last(), position, e, g, date, cats, domain) + seq![','] + cell
        }
    }
}

/// The Author cell of a row is the mod's own `author` value from its
/// metadata (what `ModMeta::author` gives), quoted, and empty when it has
/// none, whatever else the metadata holds (its uploader included); a row ends
/// with the cell of its last column.
pub proof fn lemma_author_cell(
    columns: Seq<Column>,
    position: nat,
    e: ModEntry,
    g: Seq<(Seq<char>, Seq<char>)>,
    date: Seq<char>,
    cats: Seq<crate::categories::CatM>,
    domain: Seq<char>,
)
    requires
        columns.len() > 0,
        columns.last() == Column::Author,
    ensures
        ({
            let a = quote_spec(or_empty(string_of_key(g, "author"@)));
            let r = row_text(columns, position, e, g, date, cats, domain);
            &&& r.len() >= a.len()
            &&& r.subrange(r.len() - a.len(), r.len() as int) == a
            &&& columns.len() == 1 ==> r == a
        }),
{
    let a = quote_spec(or_empty(string_of_key(g, "author"@)));
    let r = row_text(columns, position, e, g, date, cats, domain);
    if columns.len() == 1 {
        assert(r.subrange(0, r.len() as int) =~= r);
    } else {
        let p = row_text(columns.drop_last(), position, e, g, date, cats, domain);
        assert(r == p + seq![','] + a);
        assert(r.subrange(r.len() - a.len(), r.len() as int) =~= a);
    }
}

/// What each single-column row holds: the Uploader, Version, Uploader URL
/// and Download File Name cells are the quoted metadata values of `uploader`,
/// `version`, `uploaderUrl` and `installationFile` (empty when absent); the
/// Name cell is the quoted mod name; the Status cell is `+` for an enabled
/// mod and `-` otherwise, quoted; the Nexus ID cell is the mod id unquoted
/// (`0` without one).
pub proof fn lemma_single_cells(
    position: nat,
    e: ModEntry,
    g: Seq<(Seq<char>, Seq<char>)>,
    date: Seq<char>,
    cats: Seq<crate::categories::CatM>,
    domain: Seq<char>,
)
    ensures
        row_text(seq![Column::Uploader], position, e, g, date, cats, domain) == quote_spec(
            or_empty(string_of_key(g, "uploader"@)),
        ),
        row_text(seq![Column::Version], position, e, g, date, cats, domain) == quote_spec(
            or_empty(string_of_key(g, "version"@)),
        ),
        row_text(seq![Column::UploaderUrl], position, e, g, date, cats, domain) == quote_spec(
            or_empty(string_of_key(g, "uploaderUrl"@)),
        ),
        row_text(seq![Column::DownloadFileName], position, e, g, date, cats, domain) == quote_spec(
            or_empty(string_of_key(g, "installationFile"@)),
        ),
        row_text(seq![Column::Name], position, e, g, date, cats, domain) == quote_spec(e.name@),
        row_text(seq![Column::Status], position, e, g, date, cats, domain) == quote_spec(
            if e.enabled { seq!['+'] } else { seq!['-'] },
        ),
        row_text(seq![Column::NexusId], position, e, g, date, cats, domain) == dec(
            match crate::meta::number_of(g, "modid"@) {
                Some(n) => n as nat,
                None => 0,
            },
        ),
{
}

/// Exporting one mod with the Author column alone gives the header, then
/// one line holding that mod's quoted metadata author.
pub proof fn lemma_author_export(
    e: ModEntry,
    g: Seq<(Seq<char>, Seq<char>)>,
    date: Seq<char>,
    cats: Seq<crate::categories::CatM>,
    scope: ExportScope,
    domain: Seq<char>,
)
    requires
        exported(e, scope),
    ensures
        body_text(seq![e], seq![g], seq![date], cats, scope, seq![Column::Author], domain) == (
            quote_spec(or_empty(string_of_key(g, "author"@))) + seq!['\r', '\n'],
            1nat,
        ),
{
    lemma_author_cell(seq![Column::Author], 0, e, g, date, cats, domain);
    assert(seq![e].drop_last() =~= Seq::<ModEntry>::empty());
    assert(seq![e].last() == e);
    assert(seq![g][0] == g);
    assert(seq![date][0] == date);
    assert(body_text(Seq::<ModEntry>::empty(), seq![g], seq![date], cats, scope, seq![Column::Author], domain) == (
        Seq::<char>::empty(),
        0nat,
    ));
    assert(row_text(seq![Column::Author], 0, e, g, date, cats, domain) == quote_spec(
        or_empty(string_of_key(g, "author"@)),
    ));
    assert(Seq::<char>::empty() + quote_spec(or_empty(string_of_key(g, "author"@))) + seq!['\r', '\n']
        =~= quote_spec(or_empty(string_of_key(g, "author"@))) + seq!['\r', '\n']);
}

/// The header line's cells, joined with `,`.
pub open spec fn header_text(columns: Seq<Column>) -> Seq<char>
    decreases columns.len(),
{
    if columns.len() == 0 {
        Seq::empty()
    } else if columns.len() == 1 {
        header_spec(columns[0])
    } else {
        header_text(columns.drop_last()) + seq![','] + header_spec(columns.last())
    }
}

/// Whether a row is exported: in scope, and not a separator.
pub open spec fn exported(e: ModEntry, scope: ExportScope) -> bool {
    !(scope == ExportScope::Active && !e.enabled) && !is_separator_spec(e.name@)
}

/// The body lines and the count of exported rows among the first `rows.len()`.
pub open spec fn body_text(
    rows: Seq<ModEntry>,
    metas: Seq<Seq<(Seq<char>, Seq<char>)>>,
    dates: Seq<Seq<char>>,
    cats: Seq<crate::categories::CatM>,
    scope: ExportScope,
    columns: Seq<Column>,
    domain: Seq<char>,
) -> (Seq<char>, nat)
    decreases rows.len(),
{
    if rows.len() == 0 {
        (Seq::empty(), 0)
    } else {
        let n = (rows.len() - 1) as nat;
        let (prev, count) = body_text(rows.drop_last(), metas, dates, cats, scope, columns, domain);
        let e = rows.last();
        if exported(e, scope) {
            (prev + row_text(columns, n, e, metas[n as int], dates[n as int], cats, domain) + seq!['\r', '\n'], count + 1)
        } else {
            (prev, count)
        }
    }
}

/// The `[General]` entries of each metadata.
pub open spec fn generals(metas: Seq<ModMeta>) -> Seq<Seq<(Seq<char>, Seq<char>)>> {
    metas.map_values(|m: ModMeta| m@.general)
}

/// The texts of a list of strings.
pub open spec fn texts(v: Seq<String>) -> Seq<Seq<char>> {
    v.map_values(|s: String| s@)
}

fn cell_exec(
    c: Column,
    position: usize,
    e: &ModEntry,
    meta: &ModMeta,
    date: &str,
    factory: &CategoryFactory,
    domain: &str,
) -> (r: String)
    ensures
        r@ == cell_text(c, cell_value(c, position as nat, *e, meta@.general, date@, factory@, domain@)),
{
    let v: String = match c {
        Column::Priority => {
            let d = dec_pad_vec(position as u64, 4);
            crate::text::string_of(&d)
        },
        Column::Status => {
            let mut s = String::new();
            push_char(&mut s, if e.enabled { '+' } else { '-' });
            s
        },
        Column::Name => e.name.clone(),
        Column::Note => match meta.notes() {
            Some(n) => drop_commas_exec(n.as_str()),
            None => String::new(),
        },
        Column::PrimaryCategory => match meta.category() {
            Some(raw) => match parse_primary(raw.as_str()) {
                Some(id) => match factory.name_for_id(id) {
                    Some(n) => n.to_owned(),
                    None => String::new(),
                },
                None => String::new(),
            },
            None => String::new(),
        },
        Column::Author => match meta.author() {
            Some(a) => a,
            None => String::new(),
        },
        Column::Uploader => match meta.uploader() {
            Some(a) => a,
            None => String::new(),
        },
        Column::NexusId => {
            let id: u64 = match meta.mod_id() {
                Some(n) => n,
                None => 0,
            };
            u64_to_string(id)
        },
        Column::NexusUrl => {
            let id: u64 = match meta.mod_id() {
                Some(n) => n,
                None => 0,
            };
            if id > 0 && !domain.is_empty() {
                let mut s = "https://www.nexusmods.com/".to_owned();
                push_str(&mut s, domain);
                push_str(&mut s, "/mods/");
                push_str(&mut s, u64_to_string(id).as_str());
                s
            } else {
                String::new()
            }
        },
        Column::UploaderUrl => match meta.uploader_url() {
            Some(a) => a,
            None => String::new(),
        },
        Column::Version => match meta.version() {
            Some(a) => a,
            None => String::new(),
        },
        Column::InstallDate => date.to_owned(),
        Column::DownloadFileName => match meta.installation_file() {
            Some(a) => a,
            None => String::new(),
        },
    };
    proof {
        assert(v@ == cell_value(c, position as nat, *e, meta@.general, date@, factory@, domain@));
    }
    if c.quoted() {
        csv_quote(v.as_str())
    } else {
        v
    }
}

/// The mod list as Mod Organizer 2's CSV, and how many rows it holds.
///
/// `rows` is the list in display order; `metas[i]` is the metadata of
/// `rows[i]` and `install_dates[i]` its install date as text. The priority
/// column is a row's position in `rows`, so a scope that skips rows leaves
/// holes in it. Separators are never exported.
pub fn mod_list_csv(
    rows: &[ModEntry],
    metas: &[ModMeta],
    install_dates: &[String],
    factory: &CategoryFactory,
    scope: ExportScope,
    columns: &[Column],
    nexus_domain: &str,
) -> (r: (String, usize))
    requires
        metas.len() == rows.len(),
        install_dates.len() == rows.len(),
    ensures
        ({
            let (body, count) = body_text(
                rows@,
                generals(metas@),
                texts(install_dates@),
                factory@,
                scope,
                columns@,
                nexus_domain@,
            );
            r.0@ == header_text(columns@) + seq!['\r', '\n'] + body && r.1 == count
        }),
        rows@.len() == 1 && columns@ == seq![Column::Author] && exported(rows@[0], scope) ==> r.0@ == "#Mod_Author"@
            + seq!['\r', '\n'] + quote_spec(or_empty(string_of_key(metas@[0]@.general, "author"@))) + seq!['\r', '\n'],
{
    proof {
        if rows@.len() == 1 && columns@ == seq![Column::Author] && exported(rows@[0], scope) {
            reveal_strlit("#Mod_Author");
            assert(rows@ =~= seq![rows@[0]]);
            assert(generals(metas@) =~= seq![metas@[0]@.general]);
            assert(texts(install_dates@) =~= seq![install_dates@[0]@]);
            lemma_author_export(rows@[0], metas@[0]@.general, install_dates@[0]@, factory@, scope, nexus_domain@);
        }
    }
    let mut csv = String::new();
    let mut k: usize = 0;
    while k < columns.len()
        invariant
            k <= columns@.len(),
            csv@ == header_text(columns@.take(k as int)),
        decreases columns.len() - k,
    {
        assert(columns@.take(k + 1).drop_last() =~= columns@.take(k as int));
        if k > 0 {
            push_char(&mut csv, ',');
        }
        push_str(&mut csv, columns[k].header());
        proof {
            if k == 0 {
                assert(columns@.take(1)[0] == columns@[0]);
            }
        }
        assert(csv@ =~= header_text(columns@.take(k + 1)));
        k = k + 1;
    }
    assert(columns@.take(k as int) =~= columns@);
    push_char(&mut csv, '\r');
    push_char(&mut csv, '\n');
    let ghost head = csv@;
    let ghost gs = generals(metas@);
    let ghost ds = texts(install_dates@);
    let mut count: usize = 0;
    let mut i: usize = 0;
    while i < rows.len()
        invariant
            i <= rows@.len(),
            metas@.len() == rows@.len(),
            install_dates@.len() == rows@.len(),
            gs == generals(metas@),
            ds == texts(install_dates@),
            head == header_text(columns@) + seq!['\r', '\n'],
            ({
                let (body, n) = body_text(rows@.take(i as int), gs, ds, factory@, scope, columns@, nexus_domain@);
                csv@ == head + body && count == n
            }),
            count <= i,
        decreases rows.len() - i,
    {
        assert(rows@.take(i + 1).drop_last() =~= rows@.take(i as int));
        assert(rows@.take(i + 1).last() == rows@[i as int]);
        let m = &rows[i];
        let skip = (scope == ExportScope::Active && !m.enabled) || m.is_separator();
        if !skip {
            let ghost before = csv@;
            let mut c: usize = 0;
            while c < columns.len()
                invariant
                    c <= columns@.len(),
                    i < rows@.len(),
                    *m == rows@[i as int],
                    metas@.len() == rows@.len(),
                    install_dates@.len() == rows@.len(),
                    gs == generals(metas@),
                    ds == texts(install_dates@),
                    csv@ == before + row_text(columns@.take(c as int), i as nat, rows@[i as int], gs[i as int], ds[i as int], factory@, nexus_domain@),
                decreases columns.len() - c,
            {
                assert(columns@.take(c + 1).drop_last() =~= columns@.take(c as int));
                assert(columns@.take(c + 1).last() == columns@[c as int]);
                if c > 0 {
                    push_char(&mut csv, ',');
                }
                let cell = cell_exec(columns[c], i, m, &metas[i], install_dates[i].as_str(), factory, nexus_domain);
                push_str(&mut csv, cell.as_str());
                proof {
                    assert(gs[i as int] == metas@[i as int]@.general);
                    assert(ds[i as int] == install_dates@[i as int]@);
                    let cc = columns@[c as int];
                    assert(cell@ == cell_text(cc, cell_value(cc, i as nat, rows@[i as int], gs[i as int], ds[i as int], factory@, nexus_domain@)));
                    let t1 = columns@.take(c + 1);
                    assert(t1.last() == cc);
                    assert(t1.len() == c + 1);
                    if c == 0 {
                        assert(row_text(columns@.take(0), i as nat, rows@[i as int], gs[i as int], ds[i as int], factory@, nexus_domain@) =~= Seq::<char>::empty());
                    }
                }
                assert(csv@ =~= before + row_text(columns@.take(c + 1), i as nat, rows@[i as int], gs[i as int], ds[i as int], factory@, nexus_domain@));
                c = c + 1;
            }
            assert(columns@.take(c as int) =~= columns@);
            push_char(&mut csv, '\r');
            push_char(&mut csv, '\n');
            count = count + 1;
        }
        i = i + 1;
    }
    assert(rows@.take(i as int) =~= rows@);
    (csv, count)
}

/// A time in seconds as `yyyy/MM/dd HH:mm:ss`, UTC.
pub open spec fn mtime_text_spec(secs: u64) -> Seq<char> {
    let s = wrap_i64(secs);
    let rem = s % 86400;
    let (y, m, d) = civil(s / 86400);
    year_text(y) + seq!['/'] + dec_pad(m as nat, 2) + seq!['/'] + dec_pad(d as nat, 2) + seq![' ']
        + dec_pad((rem / 3600) as nat, 2) + seq![':'] + dec_pad(((rem % 3600) / 60) as nat, 2) + seq![':']
        + dec_pad((rem % 60) as nat, 2)
}

/// A modification time (seconds since the epoch) as `yyyy/MM/dd HH:mm:ss`,
/// UTC: the install-date cell of the export.
pub fn mtime_text(secs: u64) -> (r: String)
    ensures
        r@ == mtime_text_spec(secs),
{
    let (y, m, d, h, mi, s) = crate::backup::stamp_parts_exec(secs);
    let mut out = String::new();
    crate::backup::push_year(&mut out, y);
    push_char(&mut out, '/');
    crate::backup::push_two(&mut out, m);
    push_char(&mut out, '/');
    crate::backup::push_two(&mut out, d);
    push_char(&mut out, ' ');
    crate::backup::push_two(&mut out, h);
    push_char(&mut out, ':');
    crate::backup::push_two(&mut out, mi);
    push_char(&mut out, ':');
    crate::backup::push_two(&mut out, s);
    out
}

} // verus!
