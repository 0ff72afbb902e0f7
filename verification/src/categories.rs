//! Mod categories. A mod's metadata stores `category=<primary>,<others>,`, a
//! comma-terminated list of ids; the id-to-name catalog is kept separately,
//! seeded from the built-in defaults or read from `categories.dat`
//! (`id|name|parent`), with remote Nexus categories mapped onto local ones
//! from `nexuscatmap.dat` (`local|nexusName|nexusId`).

use vstd::prelude::*;

use crate::archive::key_lt;
use crate::text::{
    chars_of, dec_int, i64_to_string, lines, lines_vec, parse_i32_spec, parse_i32_vec, push_char,
    push_str, split_on, split_vec, string_of, trim, trim_vec,
};

verus! {

/// A remote (Nexus) category.
#[derive(Debug, Clone, PartialEq, Eq)]
pub struct NexusCategory {
    /// The Nexus category id.
    pub id: i32,
    /// The remote name.
    pub name: String,
}

/// One row of the catalog.
#[derive(Debug, Clone, PartialEq, Eq)]
pub struct Category {
    /// The category id, as it appears in a mod's `category=` list.
    pub id: i32,
    /// Display name.
    pub name: String,
    /// Parent id; `0` is top level.
    pub parent: i32,
    /// The Nexus categories mapped onto this one.
    pub nexus: Vec<NexusCategory>,
}

/// A remote category as `(id, name)`.
pub type NexM = (i32, Seq<char>);

/// A row as `(id, name, parent, nexus)`.
pub type CatM = (i32, Seq<char>, i32, Seq<NexM>);

/// The models of a list of remote categories.
pub open spec fn nexus_model(v: Seq<NexusCategory>) -> Seq<NexM> {
    v.map_values(|n: NexusCategory| n.model())
}

impl NexusCategory {
    pub open spec fn model(&self) -> NexM {
        (self.id, self.name@)
    }
}

impl Category {
    pub open spec fn model(&self) -> CatM {
        (self.id, self.name@, self.parent, nexus_model(self.nexus@))
    }
}

/// The models of a list of rows.
pub open spec fn cats_model(v: Seq<Category>) -> Seq<CatM> {
    v.map_values(|c: Category| c.model())
}

/// No two rows share an id.
pub open spec fn ids_unique(rows: Seq<CatM>) -> bool {
    forall|i: int, j: int| 0 <= i < rows.len() && 0 <= j < rows.len() && i != j ==> rows[i].0 != rows[j].0
}

/// The category catalog, rows in insertion order, one row per id.
#[derive(Debug)]
pub struct CategoryFactory {
    rows: Vec<Category>,
}

impl View for CategoryFactory {
    type V = Seq<CatM>;

    closed spec fn view(&self) -> Seq<CatM> {
        cats_model(self.rows@)
    }
}

impl CategoryFactory {
    #[verifier::type_invariant]
    closed spec fn wf(self) -> bool {
        ids_unique(cats_model(self.rows@))
    }
}

/// The index of the row with `id`.
pub open spec fn index_of(rows: Seq<CatM>, id: i32) -> Option<int>
    decreases rows.len(),
{
    if rows.len() == 0 {
        None
    } else if rows.last().0 == id {
        Some(rows.len() - 1)
    } else {
        index_of(rows.drop_last(), id)
    }
}

/// Insert a row, or overwrite the row with the same id in place.
pub open spec fn put(rows: Seq<CatM>, row: CatM) -> Seq<CatM> {
    match index_of(rows, row.0) {
        Some(i) => rows.update(i, row),
        None => rows.push(row),
    }
}

/// The row for an id.
pub open spec fn row_of(rows: Seq<CatM>, id: i32) -> Option<CatM> {
    match index_of(rows, id) {
        Some(i) => Some(rows[i]),
        None => None,
    }
}

pub proof fn lemma_index_of(rows: Seq<CatM>, id: i32)
    ensures
        match index_of(rows, id) {
            Some(i) => 0 <= i < rows.len() && rows[i].0 == id,
            None => forall|j: int| 0 <= j < rows.len() ==> rows[j].0 != id,
        },
    decreases rows.len(),
{
    if rows.len() > 0 && rows.last().0 != id {
        lemma_index_of(rows.drop_last(), id);
        assert forall|j: int| 0 <= j < rows.len() - 1 implies rows[j] == rows.drop_last()[j] by {}
    }
}

/// With unique ids, the row found is the one at `i`.
pub proof fn lemma_index_of_at(rows: Seq<CatM>, id: i32, i: int)
    requires
        ids_unique(rows),
        0 <= i < rows.len(),
        rows[i].0 == id,
    ensures
        index_of(rows, id) == Some(i),
{
    lemma_index_of(rows, id);
    match index_of(rows, id) {
        Some(k) => {
            if k != i {
                assert(rows[k].0 != rows[i].0);
            }
        },
        None => {},
    }
}

/// `put` keeps ids unique and makes the row findable.
pub proof fn lemma_put(rows: Seq<CatM>, row: CatM)
    requires
        ids_unique(rows),
    ensures
        ids_unique(put(rows, row)),
        row_of(put(rows, row), row.0) == Some(row),
        forall|id: i32| id != row.0 ==> #[trigger] row_of(put(rows, row), id) == row_of(rows, id),
{
    lemma_index_of(rows, row.0);
    let r = put(rows, row);
    match index_of(rows, row.0) {
        Some(i) => {
            assert(ids_unique(r));
            lemma_index_of_at(r, row.0, i);
            assert forall|id: i32| id != row.0 implies #[trigger] row_of(r, id) == row_of(rows, id) by {
                lemma_index_of(rows, id);
                match index_of(rows, id) {
                    Some(k) => {
                        lemma_index_of_at(r, id, k);
                    },
                    None => {
                        lemma_index_of(r, id);
                    },
                }
            }
        },
        None => {
            assert(ids_unique(r));
            lemma_index_of_at(r, row.0, rows.len() as int);
            assert forall|id: i32| id != row.0 implies #[trigger] row_of(r, id) == row_of(rows, id) by {
                lemma_index_of(rows, id);
                match index_of(rows, id) {
                    Some(k) => {
                        lemma_index_of_at(r, id, k);
                    },
                    None => {
                        lemma_index_of(r, id);
                    },
                }
            }
        },
    }
}

/// The built-in defaults as `(id, name, parent)`, in table order. Id 39 is
/// used twice; the later row wins.
pub open spec fn default_table() -> Seq<(i32, Seq<char>, i32)> {
    seq![
        (1, "Animations"@, 0), (52, "Poses"@, 1), (2, "Armour"@, 0), (53, "Power Armor"@, 2),
        (3, "Audio"@, 0), (38, "Music"@, 0), (39, "Voice"@, 0), (5, "Clothing"@, 0),
        (41, "Jewelry"@, 5), (42, "Backpacks"@, 5), (6, "Collectables"@, 0), (28, "Companions"@, 0),
        (7, "Creatures, Mounts, & Vehicles"@, 0), (8, "Factions"@, 0), (9, "Gameplay"@, 0),
        (27, "Combat"@, 9), (43, "Crafting"@, 9), (48, "Overhauls"@, 9), (49, "Perks"@, 9),
        (54, "Radio"@, 9), (55, "Shouts"@, 9), (22, "Skills & Levelling"@, 9),
        (58, "Weather & Lighting"@, 9), (44, "Equipment"@, 43), (45, "Home/Settlement"@, 43),
        (10, "Body, Face, & Hair"@, 0), (39, "Tattoos"@, 10), (40, "Character Presets"@, 0),
        (11, "Items"@, 0), (32, "Mercantile"@, 0), (37, "Ammo"@, 11), (19, "Weapons"@, 11),
        (36, "Weapon & Armour Sets"@, 11), (23, "Player Homes"@, 0), (25, "Castles & Mansions"@, 23),
        (51, "Settlements"@, 23), (12, "Locations"@, 0), (4, "Cities"@, 12),
        (31, "Landscape Changes"@, 0), (29, "Environment"@, 0), (30, "Immersion"@, 0),
        (20, "Magic"@, 0), (21, "Models & Textures"@, 0), (33, "Modders resources"@, 0),
        (13, "NPCs"@, 0), (24, "Bugfixes"@, 0), (14, "Patches"@, 24), (35, "Utilities"@, 0),
        (26, "Cheats"@, 0), (15, "Quests"@, 0), (16, "Races & Classes"@, 0), (34, "Stealth"@, 0),
        (17, "UI"@, 0), (18, "Visuals"@, 0), (50, "Pip-Boy"@, 18), (46, "Shader Presets"@, 0),
        (47, "Miscellaneous"@, 0),
    ]
}

/// Every table row put in order.
pub open spec fn puts(t: Seq<(i32, Seq<char>, i32)>) -> Seq<CatM>
    decreases t.len(),
{
    if t.len() == 0 {
        Seq::empty()
    } else {
        put(puts(t.drop_last()), (t.last().0, t.last().1, t.last().2, Seq::empty()))
    }
}

impl CategoryFactory {
    /// Insert or overwrite a row, keeping one row per id.
    fn put(&mut self, row: Category)
        ensures
            final(self)@ == put(old(self)@, row.model()),
    {
        proof {
            use_type_invariant(&*self);
            lemma_index_of(self@, row.id);
            lemma_put(self@, row.model());
        }
        let mut rows: Vec<Category> = Vec::new();
        std::mem::swap(&mut rows, &mut self.rows);
        let ghost r0 = rows@;
        let mut i: usize = rows.len();
        assert(cats_model(r0).take(i as int) =~= cats_model(r0));
        while i > 0 && rows[i - 1].id != row.id
            invariant
                i <= rows@.len(),
                rows@ == r0,
                index_of(cats_model(r0), row.id) == index_of(cats_model(r0).take(i as int), row.id),
            decreases i,
        {
            assert(cats_model(r0).take(i as int).drop_last() =~= cats_model(r0).take(i - 1));
            i = i - 1;
        }
        let ghost m0 = cats_model(r0);
        if i > 0 {
            assert(m0.take(i as int).last() == m0[i - 1]);
            rows.set(i - 1, row);
            assert(cats_model(rows@) =~= m0.update(i - 1, row.model()));
        } else {
            rows.push(row);
            assert(cats_model(rows@) =~= m0.push(row.model()));
        }
        self.rows = rows;
    }

    /// The built-in default catalog.
    pub fn defaults() -> (f: CategoryFactory)
        ensures
            f@ == puts(default_table()),
    {
        let table: [(i32, &str, i32); 57] = [
            (1, "Animations", 0), (52, "Poses", 1), (2, "Armour", 0), (53, "Power Armor", 2),
            (3, "Audio", 0), (38, "Music", 0), (39, "Voice", 0), (5, "Clothing", 0),
            (41, "Jewelry", 5), (42, "Backpacks", 5), (6, "Collectables", 0), (28, "Companions", 0),
            (7, "Creatures, Mounts, & Vehicles", 0), (8, "Factions", 0), (9, "Gameplay", 0),
            (27, "Combat", 9), (43, "Crafting", 9), (48, "Overhauls", 9), (49, "Perks", 9),
            (54, "Radio", 9), (55, "Shouts", 9), (22, "Skills & Levelling", 9),
            (58, "Weather & Lighting", 9), (44, "Equipment", 43), (45, "Home/Settlement", 43),
            (10, "Body, Face, & Hair", 0), (39, "Tattoos", 10), (40, "Character Presets", 0),
            (11, "Items", 0), (32, "Mercantile", 0), (37, "Ammo", 11), (19, "Weapons", 11),
            (36, "Weapon & Armour Sets", 11), (23, "Player Homes", 0), (25, "Castles & Mansions", 23),
            (51, "Settlements", 23), (12, "Locations", 0), (4, "Cities", 12),
            (31, "Landscape Changes", 0), (29, "Environment", 0), (30, "Immersion", 0),
            (20, "Magic", 0), (21, "Models & Textures", 0), (33, "Modders resources", 0),
            (13, "NPCs", 0), (24, "Bugfixes", 0), (14, "Patches", 24), (35, "Utilities", 0),
            (26, "Cheats", 0), (15, "Quests", 0), (16, "Races & Classes", 0), (34, "Stealth", 0),
            (17, "UI", 0), (18, "Visuals", 0), (50, "Pip-Boy", 18), (46, "Shader Presets", 0),
            (47, "Miscellaneous", 0),
        ];
        let ghost tv = table@.map_values(|e: (i32, &str, i32)| (e.0, e.1@, e.2));
        assert(tv =~= default_table());
        let mut f = CategoryFactory { rows: Vec::new() };
        assert(f@ =~= Seq::<CatM>::empty());
        let mut i: usize = 0;
        while i < 57
            invariant
                i <= 57,
                tv == table@.map_values(|e: (i32, &str, i32)| (e.0, e.1@, e.2)),
                tv.len() == 57,
                f@ == puts(tv.take(i as int)),
            decreases 57 - i,
        {
            let (id, name, parent) = table[i];
            assert(tv.take(i + 1).drop_last() =~= tv.take(i as int));
            assert(tv.take(i + 1).last() == tv[i as int]);
            let row = Category { id, name: name.to_owned(), parent, nexus: Vec::new() };
            assert(row.model() == (id, name@, parent, Seq::<NexM>::empty())) by {
                assert(nexus_model(row.nexus@) =~= Seq::<NexM>::empty());
            }
            f.put(row);
            i = i + 1;
        }
        assert(tv.take(57) =~= tv);
        f
    }

    /// Every row, in file order.
    pub fn all(&self) -> (r: &[Category])
        ensures
            cats_model(r@) == self@,
    {
        self.rows.as_slice()
    }

    /// The index of the row with `id`.
    fn find(&self, id: i32) -> (r: Option<usize>)
        ensures
            match r {
                Some(i) => index_of(self@, id) == Some(i as int) && i < self.rows@.len(),
                None => index_of(self@, id) is None,
            },
    {
        proof {
            use_type_invariant(self);
        }
        let ghost m = self@;
        let mut i: usize = self.rows.len();
        assert(m.take(i as int) =~= m);
        while i > 0 && self.rows[i - 1].id != id
            invariant
                i <= self.rows@.len(),
                m == self@,
                m == cats_model(self.rows@),
                index_of(m, id) == index_of(m.take(i as int), id),
            decreases i,
        {
            assert(m.take(i as int).drop_last() =~= m.take(i - 1));
            i = i - 1;
        }
        if i > 0 {
            assert(m.take(i as int).last() == m[i - 1]);
            Some(i - 1)
        } else {
            None
        }
    }

    /// The row for an id, if known.
    pub fn get(&self, id: i32) -> (r: Option<&Category>)
        ensures
            match r {
                Some(c) => row_of(self@, id) == Some(c.model()),
                None => row_of(self@, id) is None,
            },
    {
        match self.find(id) {
            Some(i) => Some(&self.rows[i]),
            None => None,
        }
    }

    /// The display name for a category id, if known.
    pub fn name_for_id(&self, id: i32) -> (r: Option<&str>)
        ensures
            match r {
                Some(n) => match row_of(self@, id) {
                    Some(c) => n@ == c.1,
                    None => false,
                },
                None => row_of(self@, id) is None,
            },
    {
        match self.get(id) {
            Some(c) => Some(c.name.as_str()),
            None => None,
        }
    }

    /// The parent id of a category (0 is top level), if known.
    pub fn parent_id(&self, id: i32) -> (r: Option<i32>)
        ensures
            r == match row_of(self@, id) {
                Some(c) => Some(c.2),
                None => None::<i32>,
            },
    {
        match self.get(id) {
            Some(c) => Some(c.parent),
            None => None,
        }
    }
}

/// The ids of a comma-separated list, blanks and junk skipped.
pub open spec fn id_list(raw: Seq<char>) -> Seq<i32> {
    ids_of(split_on(raw, ','))
}

pub open spec fn ids_of(cells: Seq<Seq<char>>) -> Seq<i32>
    decreases cells.len(),
{
    if cells.len() == 0 {
        Seq::empty()
    } else {
        match parse_i32_spec(trim(cells.last())) {
            Some(v) => ids_of(cells.drop_last()).push(v),
            None => ids_of(cells.drop_last()),
        }
    }
}

fn parse_id_list(raw: &[char]) -> (r: Vec<i32>)
    ensures
        r@ == id_list(raw@),
{
    let cells = split_vec(raw, ',');
    let ghost cs = split_on(raw@, ',');
    let mut out: Vec<i32> = Vec::new();
    let mut i: usize = 0;
    while i < cells.len()
        invariant
            i <= cells@.len(),
            cells@.len() == cs.len(),
            cs == split_on(raw@, ','),
            forall|k: int| 0 <= k < cells@.len() ==> (#[trigger] cells@[k])@ == cs[k],
            out@ == ids_of(cs.take(i as int)),
        decreases cells.len() - i,
    {
        assert(cs.take(i + 1).drop_last() =~= cs.take(i as int));
        assert(cs.take(i + 1).last() == cells@[i as int]@);
        let t = trim_vec(&cells[i]);
        match parse_i32_vec(&t) {
            Some(v) => out.push(v),
            None => {},
        }
        i = i + 1;
    }
    assert(cs.take(i as int) =~= cs);
    out
}

/// The positive ids of a list, first occurrence kept, in order.
pub open spec fn keep_positive_unique(ids: Seq<i32>) -> Seq<i32>
    decreases ids.len(),
{
    if ids.len() == 0 {
        Seq::empty()
    } else {
        let prev = keep_positive_unique(ids.drop_last());
        let id = ids.last();
        if id > 0 && !prev.contains(id) { prev.push(id) } else { prev }
    }
}

fn contains_i32(v: &Vec<i32>, x: i32) -> (b: bool)
    ensures
        b == v@.contains(x),
{
    let mut i: usize = 0;
    while i < v.len()
        invariant
            i <= v@.len(),
            forall|k: int| 0 <= k < i ==> v@[k] != x,
        decreases v.len() - i,
    {
        if v[i] == x {
            assert(v@[i as int] == x);
            return true;
        }
        i = i + 1;
    }
    false
}

/// Every category id in a raw `category=` value, primary first, in file
/// order, duplicates and non-positive ids (the `-1` placeholder) dropped.
pub fn parse_all(raw: &str) -> (r: Vec<i32>)
    ensures
        r@ == keep_positive_unique(id_list(raw@)),
{
    let v = chars_of(raw);
    let ids = parse_id_list(&v);
    let mut out: Vec<i32> = Vec::new();
    let mut i: usize = 0;
    while i < ids.len()
        invariant
            i <= ids@.len(),
            out@ == keep_positive_unique(ids@.take(i as int)),
        decreases ids.len() - i,
    {
        assert(ids@.take(i + 1).drop_last() =~= ids@.take(i as int));
        let id = ids[i];
        if id > 0 && !contains_i32(&out, id) {
            out.push(id);
        }
        i = i + 1;
    }
    assert(ids@.take(i as int) =~= ids@);
    out
}

/// The ids written for a mod: the primary (when positive) first, then the
/// others, positive and not yet listed.
pub open spec fn category_ids(primary: Option<i32>, others: Seq<i32>) -> Seq<i32> {
    let start: Seq<i32> = match primary {
        Some(p) => if p > 0 { seq![p] } else { Seq::empty() },
        None => Seq::empty(),
    };
    keep_positive_unique(start + others)
}

/// Each id followed by a comma.
pub open spec fn comma_list(ids: Seq<i32>) -> Seq<char>
    decreases ids.len(),
{
    if ids.len() == 0 {
        Seq::empty()
    } else {
        comma_list(ids.drop_last()) + dec_int(ids.last() as int) + seq![',']
    }
}

/// The on-disk category list: `-1,` when there are no ids.
pub open spec fn format_spec(primary: Option<i32>, others: Seq<i32>) -> Seq<char> {
    let ids = category_ids(primary, others);
    if ids.len() == 0 {
        seq!['-', '1', ',']
    } else {
        comma_list(ids)
    }
}

/// Render a category list in the on-disk form: primary first, then the rest,
/// comma-separated with a trailing comma; `-1,` when there is no category.
/// [`parse_all`] reads back exactly the ids written, and [`parse_primary`]
/// the first of them.
pub fn format_categories(primary: Option<i32>, others: &[i32]) -> (s: String)
    ensures
        s@ == format_spec(primary, others@),
        keep_positive_unique(id_list(s@)) == category_ids(primary, others@),
        first_positive(split_on(s@, ',')) == (if category_ids(primary, others@).len() > 0 {
            Some(category_ids(primary, others@)[0])
        } else {
            None
        }),
{
    proof {
        lemma_categories_round_trip(primary, others@);
    }
    render_categories(primary, others)
}

fn render_categories(primary: Option<i32>, others: &[i32]) -> (s: String)
    ensures
        s@ == format_spec(primary, others@),
{
    let mut all: Vec<i32> = Vec::new();
    match primary {
        Some(p) => if p > 0 {
            all.push(p);
        },
        None => {},
    }
    let ghost start = all@;
    let mut k: usize = 0;
    while k < others.len()
        invariant
            k <= others@.len(),
            all@ == start + others@.take(k as int),
        decreases others.len() - k,
    {
        all.push(others[k]);
        assert(all@ =~= start + others@.take(k + 1));
        k = k + 1;
    }
    assert(others@.take(others@.len() as int) =~= others@);
    let mut ids: Vec<i32> = Vec::new();
    let mut i: usize = 0;
    while i < all.len()
        invariant
            i <= all@.len(),
            ids@ == keep_positive_unique(all@.take(i as int)),
        decreases all.len() - i,
    {
        assert(all@.take(i + 1).drop_last() =~= all@.take(i as int));
        let id = all[i];
        if id > 0 && !contains_i32(&ids, id) {
            ids.push(id);
        }
        i = i + 1;
    }
    assert(all@.take(i as int) =~= all@);
    if ids.len() == 0 {
        let mut s = String::new();
        push_char(&mut s, '-');
        push_char(&mut s, '1');
        push_char(&mut s, ',');
        return s;
    }
    let mut s = String::new();
    let mut j: usize = 0;
    while j < ids.len()
        invariant
            j <= ids@.len(),
            s@ == comma_list(ids@.take(j as int)),
        decreases ids.len() - j,
    {
        assert(ids@.take(j + 1).drop_last() =~= ids@.take(j as int));
        let n = i64_to_string(ids[j] as i64);
        push_str(&mut s, n.as_str());
        push_char(&mut s, ',');
        j = j + 1;
    }
    assert(ids@.take(j as int) =~= ids@);
    s
}

/// The first positive id of a list of cells, skipping blanks and junk.
pub open spec fn first_positive(cells: Seq<Seq<char>>) -> Option<i32>
    decreases cells.len(),
{
    if cells.len() == 0 {
        None
    } else {
        let t = trim(cells[0]);
        match parse_i32_spec(t) {
            Some(v) => if t.len() > 0 && v > 0 { Some(v) } else { first_positive(cells.drop_first()) },
            None => first_positive(cells.drop_first()),
        }
    }
}

/// A mod's primary category from a raw `category=` value: the first positive
/// id in the list. The `-1,` placeholder and empty give `None`.
pub fn parse_primary(raw: &str) -> (r: Option<i32>)
    ensures
        r == first_positive(split_on(raw@, ',')),
{
    let v = chars_of(raw);
    let cells = split_vec(&v, ',');
    let ghost cs = split_on(v@, ',');
    let mut i: usize = 0;
    assert(cs.skip(0) =~= cs);
    while i < cells.len()
        invariant
            i <= cells@.len(),
            cells@.len() == cs.len(),
            cs == split_on(raw@, ','),
            forall|k: int| 0 <= k < cells@.len() ==> (#[trigger] cells@[k])@ == cs[k],
            first_positive(cs) == first_positive(cs.skip(i as int)),
        decreases cells.len() - i,
    {
        assert(cs.skip(i as int)[0] == cells@[i as int]@);
        assert(cs.skip(i as int).drop_first() =~= cs.skip(i + 1));
        let t = trim_vec(&cells[i]);
        if t.len() > 0 {
            match parse_i32_vec(&t) {
                Some(id) => if id > 0 {
                    return Some(id);
                },
                None => {},
            }
        }
        i = i + 1;
    }
    None
}


/// One `categories.dat` line for a row: `id|name|parent`.
pub open spec fn dat_line(r: CatM) -> Seq<char> {
    dec_int(r.0 as int) + seq!['|'] + r.1 + seq!['|'] + dec_int(r.2 as int) + seq!['\n']
}

/// The `categories.dat` text: one line per row, id 0 skipped.
pub open spec fn dat_text(rows: Seq<CatM>) -> Seq<char>
    decreases rows.len(),
{
    if rows.len() == 0 {
        Seq::empty()
    } else {
        let prev = dat_text(rows.drop_last());
        if rows.last().0 == 0 { prev } else { prev + dat_line(rows.last()) }
    }
}

/// The `nexuscatmap.dat` lines of one row: `local|nexusName|nexusId`.
pub open spec fn nexus_lines(id: i32, ns: Seq<NexM>) -> Seq<char>
    decreases ns.len(),
{
    if ns.len() == 0 {
        Seq::empty()
    } else {
        nexus_lines(id, ns.drop_last()) + dec_int(id as int) + seq!['|'] + ns.last().1 + seq!['|']
            + dec_int(ns.last().0 as int) + seq!['\n']
    }
}

/// The `nexuscatmap.dat` text.
pub open spec fn nexus_text(rows: Seq<CatM>) -> Seq<char>
    decreases rows.len(),
{
    if rows.len() == 0 {
        Seq::empty()
    } else {
        nexus_text(rows.drop_last()) + nexus_lines(rows.last().0, rows.last().3)
    }
}

/// The first row, from the top, mapping the Nexus id `n`.
pub open spec fn for_nexus(rows: Seq<CatM>, n: i32) -> Option<i32>
    decreases rows.len(),
{
    if rows.len() == 0 {
        None
    } else if exists|k: int| 0 <= k < rows[0].3.len() && (#[trigger] rows[0].3[k]).0 == n {
        Some(rows[0].0)
    } else {
        for_nexus(rows.drop_first(), n)
    }
}

/// A row's mappings without the Nexus id `n`.
pub open spec fn drop_nexus(ns: Seq<NexM>, n: i32) -> Seq<NexM>
    decreases ns.len(),
{
    if ns.len() == 0 {
        Seq::empty()
    } else {
        let prev = drop_nexus(ns.drop_last(), n);
        if ns.last().0 == n { prev } else { prev.push(ns.last()) }
    }
}

/// Every row's mappings without the Nexus id `n`.
pub open spec fn strip_nexus(rows: Seq<CatM>, n: i32) -> Seq<CatM> {
    rows.map_values(|r: CatM| (r.0, r.1, r.2, drop_nexus(r.3, n)))
}

/// The name a learned mapping is recorded under.
pub open spec fn nexus_label(name: Seq<char>) -> Seq<char> {
    if trim(name).len() == 0 { "Unknown"@ } else { trim(name) }
}

/// The catalog with the Nexus id `n` moved onto the row of `local`, recorded
/// under `name`.
pub open spec fn learned(rows: Seq<CatM>, local: i32, n: i32, name: Seq<char>) -> Seq<CatM> {
    let s = strip_nexus(rows, n);
    let i = index_of(rows, local)->0;
    s.update(i, (s[i].0, s[i].1, s[i].2, s[i].3.push((n, nexus_label(name)))))
}

/// Whether a list of mappings holds the Nexus id `n`.
fn maps_nexus(v: &Vec<NexusCategory>, n: i32) -> (b: bool)
    ensures
        b == exists|k: int| 0 <= k < v@.len() && (#[trigger] nexus_model(v@)[k]).0 == n,
{
    let ghost m = nexus_model(v@);
    let mut i: usize = 0;
    while i < v.len()
        invariant
            i <= v@.len(),
            m == nexus_model(v@),
            forall|k: int| 0 <= k < i ==> (#[trigger] m[k]).0 != n,
        decreases v.len() - i,
    {
        if v[i].id == n {
            assert(m[i as int].0 == n);
            return true;
        }
        i = i + 1;
    }
    false
}

/// A row's mappings without the Nexus id `n`.
fn without_nexus(v: &Vec<NexusCategory>, n: i32) -> (r: Vec<NexusCategory>)
    ensures
        nexus_model(r@) == drop_nexus(nexus_model(v@), n),
{
    let ghost m = nexus_model(v@);
    let mut out: Vec<NexusCategory> = Vec::new();
    let mut i: usize = 0;
    while i < v.len()
        invariant
            i <= v@.len(),
            m == nexus_model(v@),
            nexus_model(out@) == drop_nexus(m.take(i as int), n),
        decreases v.len() - i,
    {
        assert(m.take(i + 1).drop_last() =~= m.take(i as int));
        assert(m.take(i + 1).last() == v@[i as int].model());
        if v[i].id != n {
            let ghost before = nexus_model(out@);
            out.push(NexusCategory { id: v[i].id, name: v[i].name.clone() });
            assert(nexus_model(out@) =~= before.push(v@[i as int].model()));
        }
        i = i + 1;
    }
    assert(m.take(i as int) =~= m);
    out
}

impl CategoryFactory {
    /// Serialise to the `categories.dat` text (`id|name|parent`), skipping id 0.
    /// When a row is written and every written name fits a line (trimmed, no
    /// line break, no `|`), [`CategoryFactory::parse_dat`] reads back exactly
    /// the written rows.
    pub fn to_dat(&self) -> (s: String)
        ensures
            s@ == dat_text(self@),
            dat_names_ok(self@) && listed_rows(self@).len() > 0 ==> parse_dat_spec(s@) == without_mappings(
                listed_rows(self@),
            ),
    {
        proof {
            use_type_invariant(self);
            if dat_names_ok(self@) && listed_rows(self@).len() > 0 {
                lemma_dat_round_trip_all(self@);
            }
        }
        let ghost m = self@;
        let mut out = String::new();
        let mut i: usize = 0;
        while i < self.rows.len()
            invariant
                i <= self.rows@.len(),
                m == self@,
                m == cats_model(self.rows@),
                out@ == dat_text(m.take(i as int)),
            decreases self.rows.len() - i,
        {
            assert(m.take(i + 1).drop_last() =~= m.take(i as int));
            assert(m.take(i + 1).last() == self.rows@[i as int].model());
            let c = &self.rows[i];
            if c.id != 0 {
                let ghost o = out@;
                push_str(&mut out, i64_to_string(c.id as i64).as_str());
                push_char(&mut out, '|');
                push_str(&mut out, c.name.as_str());
                push_char(&mut out, '|');
                push_str(&mut out, i64_to_string(c.parent as i64).as_str());
                push_char(&mut out, '\n');
                assert(out@ =~= o + dat_line(c.model()));
            }
            i = i + 1;
        }
        assert(m.take(i as int) =~= m);
        out
    }

    /// Serialise the remote mappings to the `nexuscatmap.dat` text.
    pub fn to_nexus_map(&self) -> (s: String)
        ensures
            s@ == nexus_text(self@),
    {
        let ghost m = self@;
        let mut out = String::new();
        let mut i: usize = 0;
        while i < self.rows.len()
            invariant
                i <= self.rows@.len(),
                m == self@,
                m == cats_model(self.rows@),
                out@ == nexus_text(m.take(i as int)),
            decreases self.rows.len() - i,
        {
            assert(m.take(i + 1).drop_last() =~= m.take(i as int));
            assert(m.take(i + 1).last() == self.rows@[i as int].model());
            let c = &self.rows[i];
            let ghost ns = c.model().3;
            let ghost base = out@;
            let mut k: usize = 0;
            while k < c.nexus.len()
                invariant
                    k <= c.nexus@.len(),
                    ns == nexus_model(c.nexus@),
                    out@ == base + nexus_lines(c.id, ns.take(k as int)),
                decreases c.nexus.len() - k,
            {
                assert(ns.take(k + 1).drop_last() =~= ns.take(k as int));
                assert(ns.take(k + 1).last() == c.nexus@[k as int].model());
                let n = &c.nexus[k];
                let ghost o = out@;
                push_str(&mut out, i64_to_string(c.id as i64).as_str());
                push_char(&mut out, '|');
                push_str(&mut out, n.name.as_str());
                push_char(&mut out, '|');
                push_str(&mut out, i64_to_string(n.id as i64).as_str());
                push_char(&mut out, '\n');
                assert(out@ =~= base + nexus_lines(c.id, ns.take(k + 1)));
                k = k + 1;
            }
            assert(ns.take(k as int) =~= ns);
            i = i + 1;
        }
        assert(m.take(i as int) =~= m);
        out
    }

    /// The local category a Nexus category id maps to.
    pub fn for_nexus_id(&self, nexus_id: i32) -> (r: Option<i32>)
        ensures
            r == for_nexus(self@, nexus_id),
    {
        let ghost m = self@;
        let mut i: usize = 0;
        assert(m.skip(0) =~= m);
        while i < self.rows.len()
            invariant
                i <= self.rows@.len(),
                m == self@,
                m == cats_model(self.rows@),
                for_nexus(m, nexus_id) == for_nexus(m.skip(i as int), nexus_id),
            decreases self.rows.len() - i,
        {
            assert(m.skip(i as int)[0] == self.rows@[i as int].model());
            assert(m.skip(i as int).drop_first() =~= m.skip(i + 1));
            if maps_nexus(&self.rows[i].nexus, nexus_id) {
                proof {
                    let k = choose|k: int| 0 <= k < self.rows@[i as int].nexus@.len()
                        && (#[trigger] nexus_model(self.rows@[i as int].nexus@)[k]).0 == nexus_id;
                    assert(m.skip(i as int)[0].3[k].0 == nexus_id);
                }
                return Some(self.rows[i].id);
            }
            proof {
                assert forall|k: int| 0 <= k < m.skip(i as int)[0].3.len() implies (#[trigger] m.skip(i as int)[0].3[k]).0 != nexus_id by {
                    assert(m.skip(i as int)[0].3[k] == nexus_model(self.rows@[i as int].nexus@)[k]);
                }
            }
            i = i + 1;
        }
        assert(m.skip(i as int).len() == 0);
        None
    }

    /// Point a Nexus category id at a local category; `true` if that changed
    /// anything. The id is moved off any other category first, so one remote
    /// id maps to exactly one local category.
    pub fn learn_nexus_id(&mut self, local: i32, nexus_id: i32, name: &str) -> (changed: bool)
        ensures
            changed == !(for_nexus(old(self)@, nexus_id) == Some(local) || index_of(old(self)@, local) is None),
            !changed ==> final(self)@ == old(self)@,
            changed ==> final(self)@ == learned(old(self)@, local, nexus_id, name@),
    {
        proof {
            use_type_invariant(&*self);
        }
        if self.for_nexus_id(nexus_id) == Some(local) {
            return false;
        }
        let at = match self.find(local) {
            Some(at) => at,
            None => {
                return false;
            },
        };
        let ghost m0 = self@;
        let mut rows: Vec<Category> = Vec::new();
        std::mem::swap(&mut rows, &mut self.rows);
        let mut out: Vec<Category> = Vec::new();
        let mut i: usize = 0;
        while i < rows.len()
            invariant
                i <= rows@.len(),
                m0 == cats_model(rows@),
                cats_model(out@) == strip_nexus(m0, nexus_id).take(i as int),
            decreases rows.len() - i,
        {
            let c = &rows[i];
            let nx = without_nexus(&c.nexus, nexus_id);
            let ghost before = cats_model(out@);
            let nc = Category { id: c.id, name: c.name.clone(), parent: c.parent, nexus: nx };
            assert(m0[i as int] == c.model());
            assert(nc.model() == strip_nexus(m0, nexus_id)[i as int]);
            out.push(nc);
            assert(cats_model(out@) =~= before.push(nc.model()));
            assert(cats_model(out@) =~= strip_nexus(m0, nexus_id).take(i + 1));
            i = i + 1;
        }
        assert(strip_nexus(m0, nexus_id).take(i as int) =~= strip_nexus(m0, nexus_id));
        let v = chars_of(name);
        let t = trim_vec(&v);
        let label = if t.len() == 0 { "Unknown".to_owned() } else { string_of(&t) };
        let ghost s0 = cats_model(out@);
        let ghost o0 = out@;
        let mut row = out.remove(at);
        let ghost rm = row.model();
        assert(rm == s0[at as int]);
        let ghost nx0 = row.nexus@;
        row.nexus.push(NexusCategory { id: nexus_id, name: label });
        assert(nexus_model(row.nexus@) =~= nexus_model(nx0).push((nexus_id, nexus_label(name@))));
        out.insert(at, row);
        let ghost target = s0.update(at as int, (rm.0, rm.1, rm.2, rm.3.push((nexus_id, nexus_label(name@)))));
        assert forall|j: int| 0 <= j < out@.len() implies #[trigger] cats_model(out@)[j] == target[j] by {
            if j < at {
                assert(out@[j] == o0[j]);
            } else if j > at {
                assert(out@[j] == o0[j]);
            }
        }
        assert(cats_model(out@) =~= target);
        assert(ids_unique(cats_model(out@))) by {
            assert forall|a: int, b: int| 0 <= a < target.len() && 0 <= b < target.len() && a != b implies target[a].0 != target[b].0 by {
                assert(target[a].0 == m0[a].0);
                assert(target[b].0 == m0[b].0);
            }
        }
        self.rows = out;
        true
    }
}


/// The largest id, and at least 0.
pub open spec fn max_id(rows: Seq<CatM>) -> int
    decreases rows.len(),
{
    if rows.len() == 0 {
        0
    } else {
        let m = max_id(rows.drop_last());
        if rows.last().0 > m { rows.last().0 as int } else { m }
    }
}

/// The smallest unused id from `c` on, below `i32::MAX`; 1 when there is none.
pub open spec fn min_free_from(rows: Seq<CatM>, c: int) -> i32
    decreases i32::MAX - c,
{
    if c >= i32::MAX || c < 1 {
        1
    } else if index_of(rows, c as i32) is None {
        c as i32
    } else {
        min_free_from(rows, c + 1)
    }
}

/// The id a new category gets: one past the highest id, never a freed one.
pub open spec fn free_id_spec(rows: Seq<CatM>) -> i32 {
    if max_id(rows) < i32::MAX {
        (max_id(rows) + 1) as i32
    } else {
        min_free_from(rows, 1)
    }
}

/// `|` replaced by `/`, trimmed.
pub open spec fn clean_name(name: Seq<char>) -> Seq<char> {
    trim(name.map_values(|c: char| if c == '|' { '/' } else { c }))
}

fn clean_name_exec(name: &str) -> (r: String)
    ensures
        r@ == clean_name(name@),
{
    let v = chars_of(name);
    let mut w: Vec<char> = Vec::new();
    let mut i: usize = 0;
    while i < v.len()
        invariant
            i <= v@.len(),
            w@ == v@.take(i as int).map_values(|c: char| if c == '|' { '/' } else { c }),
        decreases v.len() - i,
    {
        let c = v[i];
        w.push(if c == '|' { '/' } else { c });
        assert(w@ =~= v@.take(i + 1).map_values(|c: char| if c == '|' { '/' } else { c }));
        i = i + 1;
    }
    assert(v@.take(i as int) =~= v@);
    let t = trim_vec(&w);
    string_of(&t)
}

/// Whether `cur` is `anc` or reaches it by following at most `fuel` parent
/// links (a link to 0, to itself, or to an unknown id ends the walk).
pub open spec fn desc(rows: Seq<CatM>, cur: i32, anc: i32, fuel: nat) -> bool
    decreases fuel,
{
    if fuel == 0 {
        false
    } else if cur == anc {
        true
    } else {
        match row_of(rows, cur) {
            Some(r) => if r.2 != 0 && r.2 != cur { desc(rows, r.2, anc, (fuel - 1) as nat) } else { false },
            None => false,
        }
    }
}

/// Whether `child` is `ancestor` or descends from it, within 32 links.
pub open spec fn is_desc(rows: Seq<CatM>, child: i32, ancestor: i32) -> bool {
    desc(rows, child, ancestor, 32)
}

/// Every row's parent `id` replaced by `parent`.
pub open spec fn lift(rows: Seq<CatM>, id: i32, parent: i32) -> Seq<CatM> {
    rows.map_values(|r: CatM| if r.2 == id { (r.0, r.1, parent, r.3) } else { r })
}

impl CategoryFactory {
    /// The next id for a new category: one past the highest id the catalog
    /// holds now (so an id below the highest is never reused, but deleting
    /// the highest row frees its id again).
    pub fn free_id(&self) -> (id: i32)
        ensures
            id == free_id_spec(self@),
    {
        let ghost m = self@;
        let mut max: i32 = 0;
        let mut i: usize = 0;
        while i < self.rows.len()
            invariant
                i <= self.rows@.len(),
                m == self@,
                m == cats_model(self.rows@),
                max as int == max_id(m.take(i as int)),
            decreases self.rows.len() - i,
        {
            assert(m.take(i + 1).drop_last() =~= m.take(i as int));
            assert(m.take(i + 1).last() == self.rows@[i as int].model());
            if self.rows[i].id > max {
                max = self.rows[i].id;
            }
            i = i + 1;
        }
        assert(m.take(i as int) =~= m);
        if max < i32::MAX {
            return max + 1;
        }
        let mut c: i32 = 1;
        while c < i32::MAX && self.find(c).is_some()
            invariant
                1 <= c <= i32::MAX,
                m == self@,
                min_free_from(m, 1) == min_free_from(m, c as int),
            decreases i32::MAX - c,
        {
            c = c + 1;
        }
        if c == i32::MAX {
            1
        } else {
            c
        }
    }

    /// Add a category and return its id. The name is cleaned of `|` and
    /// trimmed; a parent equal to the new id is taken as top level.
    pub fn add(&mut self, name: &str, parent: i32) -> (id: i32)
        ensures
            id == free_id_spec(old(self)@),
            final(self)@ == put(old(self)@, (id, clean_name(name@), if parent == id { 0 } else { parent }, Seq::empty())),
    {
        let id = self.free_id();
        let parent = if parent == id { 0 } else { parent };
        let row = Category { id, name: clean_name_exec(name), parent, nexus: Vec::new() };
        assert(nexus_model(row.nexus@) =~= Seq::<NexM>::empty());
        self.put(row);
        id
    }

    /// Rename a category; `false` if the id is unknown.
    pub fn rename(&mut self, id: i32, name: &str) -> (ok: bool)
        ensures
            ok == (index_of(old(self)@, id) is Some),
            ok ==> final(self)@ == {
                let i = index_of(old(self)@, id)->0;
                old(self)@.update(i, (old(self)@[i].0, clean_name(name@), old(self)@[i].2, old(self)@[i].3))
            },
            !ok ==> final(self)@ == old(self)@,
    {
        proof {
            use_type_invariant(&*self);
        }
        match self.find(id) {
            Some(at) => {
                let ghost m0 = self@;
                let n = clean_name_exec(name);
                let mut rows: Vec<Category> = Vec::new();
                std::mem::swap(&mut rows, &mut self.rows);
                let mut row = rows.remove(at);
                row.name = n;
                rows.insert(at, row);
                let ghost target = m0.update(at as int, (m0[at as int].0, clean_name(name@), m0[at as int].2, m0[at as int].3));
                assert(cats_model(rows@) =~= target) by {
                    assert forall|j: int| 0 <= j < rows@.len() implies #[trigger] cats_model(rows@)[j] == target[j] by {
                        if j != at {
                            assert(cats_model(rows@)[j] == m0[j]);
                        }
                    }
                }
                assert(ids_unique(target)) by {
                    assert forall|a: int, b: int| 0 <= a < target.len() && 0 <= b < target.len() && a != b implies target[a].0 != target[b].0 by {
                        assert(target[a].0 == m0[a].0);
                        assert(target[b].0 == m0[b].0);
                    }
                }
                self.rows = rows;
                true
            },
            None => false,
        }
    }

    /// Whether `child` is `ancestor` or descends from it.
    pub fn is_descendant_of(&self, child: i32, ancestor: i32) -> (b: bool)
        ensures
            b == is_desc(self@, child, ancestor),
    {
        let mut cur = child;
        let mut k: usize = 0;
        while k < 32
            invariant
                k <= 32,
                is_desc(self@, child, ancestor) == desc(self@, cur, ancestor, (32 - k) as nat),
            decreases 32 - k,
        {
            if cur == ancestor {
                return true;
            }
            match self.parent_id(cur) {
                Some(p) => {
                    if p != 0 && p != cur {
                        cur = p;
                    } else {
                        return cur == ancestor;
                    }
                },
                None => {
                    return cur == ancestor;
                },
            }
            k = k + 1;
        }
        false
    }

    /// Re-parent a category. Refuses to make it its own parent or put it under
    /// one of its own descendants; `false` then, or when the id is unknown.
    pub fn set_parent(&mut self, id: i32, parent: i32) -> (ok: bool)
        ensures
            ok == (!(id == parent || (parent != 0 && is_desc(old(self)@, parent, id))) && index_of(old(self)@, id) is Some),
            ok ==> final(self)@ == {
                let i = index_of(old(self)@, id)->0;
                old(self)@.update(i, (old(self)@[i].0, old(self)@[i].1, parent, old(self)@[i].3))
            },
            !ok ==> final(self)@ == old(self)@,
    {
        proof {
            use_type_invariant(&*self);
        }
        if id == parent || (parent != 0 && self.is_descendant_of(parent, id)) {
            return false;
        }
        match self.find(id) {
            Some(at) => {
                let ghost m0 = self@;
                let mut rows: Vec<Category> = Vec::new();
                std::mem::swap(&mut rows, &mut self.rows);
                let mut row = rows.remove(at);
                row.parent = parent;
                rows.insert(at, row);
                let ghost target = m0.update(at as int, (m0[at as int].0, m0[at as int].1, parent, m0[at as int].3));
                assert(cats_model(rows@) =~= target) by {
                    assert forall|j: int| 0 <= j < rows@.len() implies #[trigger] cats_model(rows@)[j] == target[j] by {
                        if j != at {
                            assert(cats_model(rows@)[j] == m0[j]);
                        }
                    }
                }
                assert(ids_unique(target)) by {
                    assert forall|a: int, b: int| 0 <= a < target.len() && 0 <= b < target.len() && a != b implies target[a].0 != target[b].0 by {
                        assert(target[a].0 == m0[a].0);
                        assert(target[b].0 == m0[b].0);
                    }
                }
                self.rows = rows;
                true
            },
            None => false,
        }
    }

    /// Delete a category, moving its children onto its own parent; `false` if
    /// the id is unknown. Mods still naming the id are not touched.
    pub fn remove(&mut self, id: i32) -> (ok: bool)
        ensures
            ok == (index_of(old(self)@, id) is Some),
            ok ==> final(self)@ == {
                let i = index_of(old(self)@, id)->0;
                lift(old(self)@.remove(i), id, old(self)@[i].2)
            },
            !ok ==> final(self)@ == old(self)@,
    {
        proof {
            use_type_invariant(&*self);
        }
        let at = match self.find(id) {
            Some(at) => at,
            None => {
                return false;
            },
        };
        let ghost m0 = self@;
        let parent = self.rows[at].parent;
        let mut rows: Vec<Category> = Vec::new();
        std::mem::swap(&mut rows, &mut self.rows);
        let _gone = rows.remove(at);
        let ghost m1 = m0.remove(at as int);
        assert(cats_model(rows@) =~= m1);
        let mut out: Vec<Category> = Vec::new();
        let mut i: usize = 0;
        while i < rows.len()
            invariant
                i <= rows@.len(),
                cats_model(rows@) == m1,
                cats_model(out@) == lift(m1, id, parent).take(i as int),
            decreases rows.len() - i,
        {
            let c = &rows[i];
            let p = if c.parent == id { parent } else { c.parent };
            let nc = Category { id: c.id, name: c.name.clone(), parent: p, nexus: clone_nexus(&c.nexus) };
            assert(m1[i as int] == c.model());
            assert(nc.model() == lift(m1, id, parent)[i as int]);
            let ghost before = cats_model(out@);
            out.push(nc);
            assert(cats_model(out@) =~= before.push(nc.model()));
            assert(cats_model(out@) =~= lift(m1, id, parent).take(i + 1));
            i = i + 1;
        }
        assert(lift(m1, id, parent).take(i as int) =~= lift(m1, id, parent));
        assert(ids_unique(lift(m1, id, parent))) by {
            let t = lift(m1, id, parent);
            assert forall|a: int, b: int| 0 <= a < t.len() && 0 <= b < t.len() && a != b implies t[a].0 != t[b].0 by {
                let a0 = if a < at { a } else { a + 1 };
                let b0 = if b < at { b } else { b + 1 };
                assert(t[a].0 == m0[a0].0);
                assert(t[b].0 == m0[b0].0);
            }
        }
        self.rows = out;
        true
    }
}

fn clone_nexus(v: &Vec<NexusCategory>) -> (r: Vec<NexusCategory>)
    ensures
        nexus_model(r@) == nexus_model(v@),
{
    let mut out: Vec<NexusCategory> = Vec::new();
    let mut i: usize = 0;
    while i < v.len()
        invariant
            i <= v@.len(),
            nexus_model(out@) == nexus_model(v@).take(i as int),
        decreases v.len() - i,
    {
        let ghost before = nexus_model(out@);
        let n = NexusCategory { id: v[i].id, name: v[i].name.clone() };
        assert(n.model() == v@[i as int].model());
        out.push(n);
        assert(nexus_model(out@) =~= before.push(n.model()));
        assert(nexus_model(out@) =~= nexus_model(v@).take(i + 1));
        i = i + 1;
    }
    assert(nexus_model(v@).take(i as int) =~= nexus_model(v@));
    out
}


/// Where `name` goes in a list sorted by name: after every entry whose name
/// is not greater, which keeps equal names in their original order.
pub open spec fn ins_pos(sorted: Seq<(i32, Seq<char>)>, name: Seq<char>) -> int
    decreases sorted.len(),
{
    if sorted.len() == 0 {
        0
    } else if key_lt(name, sorted.last().1) {
        ins_pos(sorted.drop_last(), name)
    } else {
        sorted.len() as int
    }
}

/// A stable sort by name (code-point order).
pub open spec fn sort_named(s: Seq<(i32, Seq<char>)>) -> Seq<(i32, Seq<char>)>
    decreases s.len(),
{
    if s.len() == 0 {
        Seq::empty()
    } else {
        let p = sort_named(s.drop_last());
        p.insert(ins_pos(p, s.last().1), s.last())
    }
}

/// `(id, name)` of the rows whose parent is 0, in row order.
pub open spec fn top_level(rows: Seq<CatM>) -> Seq<(i32, Seq<char>)>
    decreases rows.len(),
{
    if rows.len() == 0 {
        Seq::empty()
    } else {
        let p = top_level(rows.drop_last());
        if rows.last().2 == 0 { p.push((rows.last().0, rows.last().1)) } else { p }
    }
}

/// The views of `(id, name)` pairs.
pub open spec fn named_view(v: Seq<(i32, &str)>) -> Seq<(i32, Seq<char>)> {
    v.map_values(|e: (i32, &str)| (e.0, e.1@))
}

proof fn lemma_ins_pos(sorted: Seq<(i32, Seq<char>)>, name: Seq<char>)
    ensures
        0 <= ins_pos(sorted, name) <= sorted.len(),
    decreases sorted.len(),
{
    if sorted.len() > 0 && key_lt(name, sorted.last().1) {
        lemma_ins_pos(sorted.drop_last(), name);
    }
}

/// Insert `x` into a name-sorted list at its stable position.
fn insert_named<'a>(v: &mut Vec<(i32, &'a str)>, x: (i32, &'a str))
    ensures
        named_view(final(v)@) == named_view(old(v)@).insert(ins_pos(named_view(old(v)@), x.1@), (x.0, x.1@)),
{
    let ghost s = named_view(v@);
    let xn = chars_of(x.1);
    let mut k: usize = v.len();
    assert(s.take(k as int) =~= s);
    while k > 0 && crate::archive::key_lt_exec(&xn, &chars_of(v[k - 1].1))
        invariant
            k <= v@.len(),
            s == named_view(v@),
            xn@ == x.1@,
            ins_pos(s, x.1@) == ins_pos(s.take(k as int), x.1@),
        decreases k,
    {
        assert(s.take(k as int).drop_last() =~= s.take(k - 1));
        assert(s.take(k as int).last() == s[k - 1]);
        k = k - 1;
    }
    proof {
        if k > 0 {
            assert(s.take(k as int).last() == s[k - 1]);
        }
    }
    v.insert(k, x);
    assert(named_view(v@) =~= s.insert(k as int, (x.0, x.1@)));
}

impl CategoryFactory {
    /// Top-level categories (parent 0), sorted by name.
    pub fn all_top_level(&self) -> (r: Vec<(i32, &str)>)
        ensures
            named_view(r@) == sort_named(top_level(self@)),
    {
        let ghost m = self@;
        let mut out: Vec<(i32, &str)> = Vec::new();
        let mut i: usize = 0;
        assert(named_view(out@) =~= Seq::<(i32, Seq<char>)>::empty());
        while i < self.rows.len()
            invariant
                i <= self.rows@.len(),
                m == self@,
                m == cats_model(self.rows@),
                named_view(out@) == sort_named(top_level(m.take(i as int))),
            decreases self.rows.len() - i,
        {
            assert(m.take(i + 1).drop_last() =~= m.take(i as int));
            assert(m.take(i + 1).last() == self.rows@[i as int].model());
            let c = &self.rows[i];
            if c.parent == 0 {
                insert_named(&mut out, (c.id, c.name.as_str()));
                let ghost sn = top_level(m.take(i + 1));
                assert(sn.drop_last() =~= top_level(m.take(i as int)));
                assert(sn.last() == (c.id, c.name@));
            }
            i = i + 1;
        }
        assert(m.take(i as int) =~= m);
        out
    }
}

/// A tree row as `(id, name, depth)`.
pub type TreeRowM = (i32, Seq<char>, nat);

/// Whether `id` has been emitted already.
pub open spec fn seen(out: Seq<TreeRowM>, id: i32) -> bool {
    exists|k: int| 0 <= k < out.len() && (#[trigger] out[k]).0 == id
}

/// A parent that names a row of the catalog.
pub open spec fn known(rows: Seq<CatM>, p: i32) -> bool {
    p != 0 && index_of(rows, p) is Some
}

/// `(id, name)` of the rows with a parent that is not known, in row order.
pub open spec fn roots(rows: Seq<CatM>, all: Seq<CatM>) -> Seq<(i32, Seq<char>)>
    decreases rows.len(),
{
    if rows.len() == 0 {
        Seq::empty()
    } else {
        let p = roots(rows.drop_last(), all);
        let r = rows.last();
        if !known(all, r.2) { p.push((r.0, r.1)) } else { p }
    }
}

/// `(id, name)` of the children of `id`, a row not counting as its own child.
pub open spec fn kids(rows: Seq<CatM>, id: i32) -> Seq<(i32, Seq<char>)>
    decreases rows.len(),
{
    if rows.len() == 0 {
        Seq::empty()
    } else {
        let p = kids(rows.drop_last(), id);
        let r = rows.last();
        if r.2 == id && r.0 != id { p.push((r.0, r.1)) } else { p }
    }
}

/// A name as a tree row shows it: indented by two spaces per level of depth.
pub open spec fn indented(name: Seq<char>, depth: nat) -> Seq<char> {
    Seq::new(2 * depth, |i: int| ' ') + name
}

fn indent_name(name: &str, depth: usize) -> (s: String)
    requires
        depth <= 17,
    ensures
        s@ == indented(name@, depth as nat),
{
    let mut s = String::new();
    let mut i: usize = 0;
    while i < depth
        invariant
            i <= depth,
            s@ == Seq::new(2 * i as nat, |j: int| ' '),
        decreases depth - i,
    {
        crate::text::push_char(&mut s, ' ');
        crate::text::push_char(&mut s, ' ');
        i = i + 1;
        assert(s@ =~= Seq::new(2 * i as nat, |j: int| ' '));
    }
    crate::text::push_str(&mut s, name);
    s
}

/// The rows emitted for `id` at `depth` after `out`: nothing past depth 16
/// or for an id already emitted; else its own row (when known, with its name
/// indented for the depth) and then its children, sorted by name, one level
/// deeper.
pub open spec fn walk(rows: Seq<CatM>, id: i32, depth: nat, out: Seq<TreeRowM>) -> Seq<TreeRowM>
    decreases 17 - depth, 0nat, 0nat,
{
    if depth > 16 || seen(out, id) {
        out
    } else {
        let out1 = match row_of(rows, id) {
            Some(r) => out.push((id, indented(r.1, depth), depth)),
            None => out,
        };
        walk_all(rows, sort_named(kids(rows, id)), depth + 1, out1)
    }
}

/// The rows emitted for each of `ids` in turn at `depth`.
pub open spec fn walk_all(rows: Seq<CatM>, ids: Seq<(i32, Seq<char>)>, depth: nat, out: Seq<TreeRowM>) -> Seq<TreeRowM>
    decreases 17 - depth, 1nat, ids.len(),
{
    if ids.len() == 0 {
        out
    } else {
        walk_all(rows, ids.drop_first(), depth, walk(rows, ids[0].0, depth, out))
    }
}

/// The models of tree rows.
pub open spec fn tree_view(v: Seq<(i32, String, usize)>) -> Seq<TreeRowM> {
    v.map_values(|e: (i32, String, usize)| (e.0, e.1@, e.2 as nat))
}

impl CategoryFactory {
    /// Every category as `(id, indented name, depth)`, parents before
    /// children, each sibling group sorted by name. Rows whose parent is missing are shown at
    /// top level; a cycle stops at a row already shown or past depth 16.
    pub fn tree(&self) -> (r: Vec<(i32, String, usize)>)
        ensures
            tree_view(r@) == walk_all(self@, sort_named(roots(self@, self@)), 0, Seq::empty()),
    {
        let ghost m = self@;
        let mut rs: Vec<(i32, &str)> = Vec::new();
        let mut i: usize = 0;
        assert(named_view(rs@) =~= Seq::<(i32, Seq<char>)>::empty());
        while i < self.rows.len()
            invariant
                i <= self.rows@.len(),
                m == self@,
                m == cats_model(self.rows@),
                named_view(rs@) == sort_named(roots(m.take(i as int), m)),
            decreases self.rows.len() - i,
        {
            assert(m.take(i + 1).drop_last() =~= m.take(i as int));
            assert(m.take(i + 1).last() == self.rows@[i as int].model());
            let c = &self.rows[i];
            let known = c.parent != 0 && self.find(c.parent).is_some();
            if !known {
                insert_named(&mut rs, (c.id, c.name.as_str()));
                let ghost sn = roots(m.take(i + 1), m);
                assert(sn.drop_last() =~= roots(m.take(i as int), m));
                assert(sn.last() == (c.id, c.name@));
            }
            i = i + 1;
        }
        assert(m.take(i as int) =~= m);
        let mut out: Vec<(i32, String, usize)> = Vec::new();
        assert(tree_view(out@) =~= Seq::<TreeRowM>::empty());
        self.walk_list(&rs, 0, &mut out);
        out
    }

    fn walk_list(&self, ids: &Vec<(i32, &str)>, depth: usize, out: &mut Vec<(i32, String, usize)>)
        requires
            depth <= 17,
        ensures
            tree_view(final(out)@) == walk_all(self@, named_view(ids@), depth as nat, tree_view(old(out)@)),
        decreases 17 - depth, 1nat, ids@.len(),
    {
        let ghost ns = named_view(ids@);
        let ghost start = tree_view(out@);
        let mut i: usize = 0;
        assert(ns.skip(0) =~= ns);
        while i < ids.len()
            invariant
                i <= ids@.len(),
                depth <= 17,
                ns == named_view(ids@),
                walk_all(self@, ns, depth as nat, start) == walk_all(self@, ns.skip(i as int), depth as nat, tree_view(out@)),
            decreases ids.len() - i,
        {
            assert(ns.skip(i as int)[0].0 == ids@[i as int].0);
            assert(ns.skip(i as int).drop_first() =~= ns.skip(i + 1));
            self.walk_one(ids[i].0, depth, out);
            i = i + 1;
        }
        assert(ns.skip(i as int).len() == 0);
    }

    fn walk_one(&self, id: i32, depth: usize, out: &mut Vec<(i32, String, usize)>)
        requires
            depth <= 17,
        ensures
            tree_view(final(out)@) == walk(self@, id, depth as nat, tree_view(old(out)@)),
        decreases 17 - depth, 0nat, 0nat,
    {
        let ghost m = self@;
        let ghost o0 = tree_view(out@);
        if depth > 16 {
            return;
        }
        let mut k: usize = 0;
        while k < out.len()
            invariant
                k <= out@.len(),
                o0 == tree_view(out@),
                forall|j: int| 0 <= j < k ==> (#[trigger] o0[j]).0 != id,
            decreases out.len() - k,
        {
            if out[k].0 == id {
                assert(o0[k as int].0 == id);
                return;
            }
            k = k + 1;
        }
        match self.get(id) {
            Some(c) => {
                let ghost before = tree_view(out@);
                let shown = indent_name(c.name.as_str(), depth);
                out.push((id, shown, depth));
                assert(tree_view(out@) =~= before.push((id, indented(c.name@, depth as nat), depth as nat)));
            },
            None => {},
        }
        let mut ks: Vec<(i32, &str)> = Vec::new();
        let mut i: usize = 0;
        assert(named_view(ks@) =~= Seq::<(i32, Seq<char>)>::empty());
        while i < self.rows.len()
            invariant
                i <= self.rows@.len(),
                m == self@,
                m == cats_model(self.rows@),
                named_view(ks@) == sort_named(kids(m.take(i as int), id)),
            decreases self.rows.len() - i,
        {
            assert(m.take(i + 1).drop_last() =~= m.take(i as int));
            assert(m.take(i + 1).last() == self.rows@[i as int].model());
            let c = &self.rows[i];
            if c.parent == id && c.id != id {
                insert_named(&mut ks, (c.id, c.name.as_str()));
                let ghost sn = kids(m.take(i + 1), id);
                assert(sn.drop_last() =~= kids(m.take(i as int), id));
                assert(sn.last() == (c.id, c.name@));
            }
            i = i + 1;
        }
        assert(m.take(i as int) =~= m);
        self.walk_list(&ks, depth + 1, out);
    }
}


/// The row a `categories.dat` line describes: `id|name|parent`, or the legacy
/// `id|name|nexusIds|parent` whose recovered mappings are named `Unknown`.
/// Blank lines, other cell counts and unparseable ids give `None`.
pub open spec fn dat_row(line: Seq<char>) -> Option<CatM> {
    let cells = split_on(line, '|');
    if trim(line).len() == 0 || (cells.len() != 3 && cells.len() != 4) {
        None
    } else {
        let nexus: Seq<char> = if cells.len() == 4 { cells[2] } else { Seq::empty() };
        let parent = if cells.len() == 4 { cells[3] } else { cells[2] };
        match (parse_i32_spec(trim(cells[0])), parse_i32_spec(trim(parent))) {
            (Some(id), Some(p)) => Some((id, trim(cells[1]), p, id_list(nexus).map_values(|n: i32| (n, "Unknown"@)))),
            _ => None,
        }
    }
}

/// The rows of `categories.dat` lines, each put in order.
pub open spec fn dat_rows(ls: Seq<Seq<char>>) -> Seq<CatM>
    decreases ls.len(),
{
    if ls.len() == 0 {
        Seq::empty()
    } else {
        match dat_row(ls.last()) {
            Some(r) => put(dat_rows(ls.drop_last()), r),
            None => dat_rows(ls.drop_last()),
        }
    }
}

/// The catalog a `categories.dat` text gives; the defaults when it has no row.
pub open spec fn parse_dat_spec(text: Seq<char>) -> Seq<CatM> {
    let r = dat_rows(lines(text));
    if r.len() == 0 { puts(default_table()) } else { r }
}

/// One `nexuscatmap.dat` line merged: `local|nexusName|nexusId` moves the
/// Nexus id off every row, then onto the local row when that is known.
pub open spec fn merge_line(rows: Seq<CatM>, line: Seq<char>) -> Seq<CatM> {
    let cells = split_on(line, '|');
    if trim(line).len() == 0 || cells.len() != 3 {
        rows
    } else {
        match (parse_i32_spec(trim(cells[0])), parse_i32_spec(trim(cells[2]))) {
            (Some(cat), Some(n)) => {
                let s = strip_nexus(rows, n);
                match index_of(s, cat) {
                    Some(i) => s.update(i, (s[i].0, s[i].1, s[i].2, s[i].3.push((n, trim(cells[1]))))),
                    None => s,
                }
            },
            _ => rows,
        }
    }
}

/// Every line merged in order.
pub open spec fn merge_lines(rows: Seq<CatM>, ls: Seq<Seq<char>>) -> Seq<CatM>
    decreases ls.len(),
{
    if ls.len() == 0 {
        rows
    } else {
        merge_line(merge_lines(rows, ls.drop_last()), ls.last())
    }
}

proof fn lemma_strip_nexus_ids(rows: Seq<CatM>, n: i32)
    ensures
        strip_nexus(rows, n).len() == rows.len(),
        forall|i: int| 0 <= i < rows.len() ==> (#[trigger] strip_nexus(rows, n)[i]).0 == rows[i].0,
{
}

impl CategoryFactory {
    /// Parse a `categories.dat` text; the defaults when it holds no row.
    pub fn parse_dat(text: &str) -> (f: CategoryFactory)
        ensures
            f@ == parse_dat_spec(text@),
    {
        let v = chars_of(text);
        let ls = lines_vec(&v);
        let ghost lm = lines(v@);
        let mut f = CategoryFactory { rows: Vec::new() };
        assert(f@ =~= Seq::<CatM>::empty());
        let mut i: usize = 0;
        while i < ls.len()
            invariant
                i <= ls@.len(),
                ls@.len() == lm.len(),
                lm == lines(text@),
                forall|k: int| 0 <= k < ls@.len() ==> (#[trigger] ls@[k])@ == lm[k],
                f@ == dat_rows(lm.take(i as int)),
            decreases ls.len() - i,
        {
            assert(lm.take(i + 1).drop_last() =~= lm.take(i as int));
            assert(lm.take(i + 1).last() == ls@[i as int]@);
            let line = &ls[i];
            let cells = split_vec(line, '|');
            let ghost cs = split_on(line@, '|');
            assert(cells@.len() == cs.len());
            let blank = trim_vec(line).len() == 0;
            if !blank && (cells.len() == 3 || cells.len() == 4) {
                let id_t = trim_vec(&cells[0]);
                let name_t = trim_vec(&cells[1]);
                let (nexus_v, parent_v) = if cells.len() == 4 {
                    (cells[2].clone(), &cells[3])
                } else {
                    (Vec::new(), &cells[2])
                };
                let parent_t = trim_vec(parent_v);
                match (parse_i32_vec(&id_t), parse_i32_vec(&parent_t)) {
                    (Some(id), Some(parent)) => {
                        let ids = parse_id_list(&nexus_v);
                        let mut nexus: Vec<NexusCategory> = Vec::new();
                        let mut k: usize = 0;
                        while k < ids.len()
                            invariant
                                k <= ids@.len(),
                                nexus_model(nexus@) == ids@.take(k as int).map_values(|n: i32| (n, "Unknown"@)),
                            decreases ids.len() - k,
                        {
                            let ghost before = nexus_model(nexus@);
                            let nc = NexusCategory { id: ids[k], name: "Unknown".to_owned() };
                            assert(nc.model() == (ids@[k as int], "Unknown"@));
                            nexus.push(nc);
                            assert(nexus_model(nexus@) =~= before.push(nc.model()));
                            assert(nexus_model(nexus@) =~= ids@.take(k + 1).map_values(|n: i32| (n, "Unknown"@)));
                            k = k + 1;
                        }
                        assert(ids@.take(k as int) =~= ids@);
                        proof {
                            if cells@.len() != 4 {
                                assert(nexus_v@ =~= Seq::<char>::empty());
                            }
                        }
                        let row = Category { id, name: string_of(&name_t), parent, nexus };
                        assert(dat_row(line@) == Some(row.model()));
                        f.put(row);
                    },
                    _ => {},
                }
            }
            i = i + 1;
        }
        assert(lm.take(i as int) =~= lm);
        if f.rows.len() == 0 {
            CategoryFactory::defaults()
        } else {
            f
        }
    }

    /// Merge a `nexuscatmap.dat` text onto the catalog. A mapping whose local
    /// category is not in the catalog is dropped.
    pub fn merge_nexus_map(&mut self, text: &str)
        ensures
            final(self)@ == merge_lines(old(self)@, lines(text@)),
    {
        let v = chars_of(text);
        let ls = lines_vec(&v);
        let ghost lm = lines(v@);
        let ghost m0 = self@;
        let mut i: usize = 0;
        while i < ls.len()
            invariant
                i <= ls@.len(),
                ls@.len() == lm.len(),
                lm == lines(text@),
                forall|k: int| 0 <= k < ls@.len() ==> (#[trigger] ls@[k])@ == lm[k],
                self@ == merge_lines(m0, lm.take(i as int)),
            decreases ls.len() - i,
        {
            assert(lm.take(i + 1).drop_last() =~= lm.take(i as int));
            assert(lm.take(i + 1).last() == ls@[i as int]@);
            let line = &ls[i];
            let cells = split_vec(line, '|');
            let blank = trim_vec(line).len() == 0;
            if !blank && cells.len() == 3 {
                let cat_t = trim_vec(&cells[0]);
                let nx_t = trim_vec(&cells[2]);
                match (parse_i32_vec(&cat_t), parse_i32_vec(&nx_t)) {
                    (Some(cat), Some(n)) => {
                        let name_t = trim_vec(&cells[1]);
                        self.map_one(cat, n, string_of(&name_t));
                    },
                    _ => {},
                }
            }
            i = i + 1;
        }
        assert(lm.take(i as int) =~= lm);
    }

    /// Move the Nexus id `n` off every row and onto row `cat` when known.
    fn map_one(&mut self, cat: i32, n: i32, name: String)
        ensures
            final(self)@ == {
                let s = strip_nexus(old(self)@, n);
                match index_of(s, cat) {
                    Some(i) => s.update(i, (s[i].0, s[i].1, s[i].2, s[i].3.push((n, name@)))),
                    None => s,
                }
            },
    {
        proof {
            use_type_invariant(&*self);
        }
        let ghost m0 = self@;
        let mut rows: Vec<Category> = Vec::new();
        std::mem::swap(&mut rows, &mut self.rows);
        let mut out: Vec<Category> = Vec::new();
        let mut i: usize = 0;
        let mut at: Option<usize> = None;
        while i < rows.len()
            invariant
                i <= rows@.len(),
                m0 == cats_model(rows@),
                ids_unique(m0),
                cats_model(out@) == strip_nexus(m0, n).take(i as int),
                match at {
                    Some(a) => a < i && m0[a as int].0 == cat,
                    None => forall|j: int| 0 <= j < i ==> m0[j].0 != cat,
                },
            decreases rows.len() - i,
        {
            let c = &rows[i];
            let nx = without_nexus(&c.nexus, n);
            let nc = Category { id: c.id, name: c.name.clone(), parent: c.parent, nexus: nx };
            assert(m0[i as int] == c.model());
            assert(nc.model() == strip_nexus(m0, n)[i as int]);
            if c.id == cat {
                at = Some(i);
            }
            let ghost before = cats_model(out@);
            out.push(nc);
            assert(cats_model(out@) =~= before.push(nc.model()));
            assert(cats_model(out@) =~= strip_nexus(m0, n).take(i + 1));
            i = i + 1;
        }
        let ghost s = strip_nexus(m0, n);
        assert(s.take(i as int) =~= s);
        proof {
            lemma_strip_nexus_ids(m0, n);
            assert(ids_unique(s));
        }
        match at {
            Some(a) => {
                proof {
                    lemma_index_of_at(s, cat, a as int);
                }
                let ghost o0 = out@;
                let mut row = out.remove(a);
                let ghost rm = row.model();
                let ghost nx0 = row.nexus@;
                row.nexus.push(NexusCategory { id: n, name });
                assert(nexus_model(row.nexus@) =~= nexus_model(nx0).push((n, name@)));
                out.insert(a, row);
                let ghost target = s.update(a as int, (s[a as int].0, s[a as int].1, s[a as int].2, s[a as int].3.push((n, name@))));
                assert forall|j: int| 0 <= j < out@.len() implies #[trigger] cats_model(out@)[j] == target[j] by {
                    if j != a {
                        assert(out@[j] == o0[j]);
                    }
                }
                assert(cats_model(out@) =~= target);
                assert(ids_unique(target)) by {
                    assert forall|x: int, y: int| 0 <= x < target.len() && 0 <= y < target.len() && x != y implies target[x].0 != target[y].0 by {
                        assert(target[x].0 == s[x].0);
                        assert(target[y].0 == s[y].0);
                    }
                }
            },
            None => {
                proof {
                    lemma_index_of(s, cat);
                    assert forall|j: int| 0 <= j < s.len() implies s[j].0 != cat by {
                        assert(s[j].0 == m0[j].0);
                    }
                    lemma_index_of(s, cat);
                    match index_of(s, cat) {
                        Some(k) => {
                            assert(s[k].0 == cat);
                        },
                        None => {},
                    }
                }
            },
        }
        self.rows = out;
    }
}

proof fn lemma_max_id(rows: Seq<CatM>)
    ensures
        max_id(rows) >= 0,
        forall|i: int| 0 <= i < rows.len() ==> rows[i].0 <= max_id(rows),
        max_id(rows) <= i32::MAX,
    decreases rows.len(),
{
    if rows.len() > 0 {
        lemma_max_id(rows.drop_last());
        assert forall|i: int| 0 <= i < rows.len() implies rows[i].0 <= max_id(rows) by {
            if i < rows.len() - 1 {
                assert(rows[i] == rows.drop_last()[i]);
            }
        }
    }
}

proof fn lemma_min_free_from(rows: Seq<CatM>, c: int)
    ensures
        min_free_from(rows, c) >= 1,
    decreases i32::MAX - c,
{
    if !(c >= i32::MAX || c < 1) && index_of(rows, c as i32) is Some {
        lemma_min_free_from(rows, c + 1);
    }
}

/// The id a new category gets is never 0 or negative, and, below the top of
/// the id range, higher than every id in the catalog, so no taken id (nor a
/// deleted one below the highest) is handed out.
pub proof fn lemma_free_id_fresh(rows: Seq<CatM>)
    ensures
        free_id_spec(rows) >= 1,
        max_id(rows) < i32::MAX ==> forall|i: int| 0 <= i < rows.len() ==> rows[i].0 < free_id_spec(rows),
{
    lemma_max_id(rows);
    lemma_min_free_from(rows, 1);
}

/// A category is never created as its own parent.
pub proof fn lemma_add_not_own_parent(rows: Seq<CatM>, parent: i32)
    ensures
        ({
            let id = free_id_spec(rows);
            (if parent == id { 0 } else { parent }) != id
        }),
{
    lemma_free_id_fresh(rows);
}

proof fn lemma_index_of_same_ids(a: Seq<CatM>, b: Seq<CatM>, id: i32)
    requires
        a.len() == b.len(),
        forall|k: int| 0 <= k < a.len() ==> a[k].0 == b[k].0,
    ensures
        index_of(a, id) == index_of(b, id),
    decreases a.len(),
{
    if a.len() > 0 {
        lemma_index_of_same_ids(a.drop_last(), b.drop_last(), id);
    }
}

proof fn lemma_desc_unchanged(old_rows: Seq<CatM>, i: int, parent: i32, cur: i32, id: i32, fuel: nat)
    requires
        0 <= i < old_rows.len(),
        old_rows[i].0 == id,
        index_of(old_rows, id) == Some(i),
        !desc(old_rows, cur, id, fuel),
    ensures
        !desc(old_rows.update(i, (old_rows[i].0, old_rows[i].1, parent, old_rows[i].3)), cur, id, fuel),
    decreases fuel,
{
    let nr = old_rows.update(i, (old_rows[i].0, old_rows[i].1, parent, old_rows[i].3));
    if fuel > 0 && cur != id {
        lemma_index_of_same_ids(old_rows, nr, cur);
        match index_of(old_rows, cur) {
            Some(j) => {
                lemma_index_of(old_rows, cur);
                assert(j != i);
                assert(nr[j] == old_rows[j]);
                let r = old_rows[j];
                if r.2 != 0 && r.2 != cur {
                    lemma_desc_unchanged(old_rows, i, parent, r.2, id, (fuel - 1) as nat);
                }
            },
            None => {},
        }
    }
}

/// A successful re-parenting never builds a cycle: following parents up
/// from the new parent does not lead back to the category (within the 32
/// links the catalog follows).
pub proof fn lemma_set_parent_acyclic(rows: Seq<CatM>, id: i32, parent: i32)
    requires
        !(id == parent || (parent != 0 && is_desc(rows, parent, id))),
        index_of(rows, id) is Some,
        parent != 0,
    ensures
        ({
            let i = index_of(rows, id)->0;
            !is_desc(rows.update(i, (rows[i].0, rows[i].1, parent, rows[i].3)), parent, id)
        }),
{
    let i = index_of(rows, id)->0;
    lemma_index_of(rows, id);
    lemma_desc_unchanged(rows, i, parent, parent, id, 32);
}

proof fn lemma_drop_nexus(ns: Seq<NexM>, n: i32)
    ensures
        forall|k: int| 0 <= k < drop_nexus(ns, n).len() ==> (#[trigger] drop_nexus(ns, n)[k]).0 != n,
    decreases ns.len(),
{
    if ns.len() > 0 {
        lemma_drop_nexus(ns.drop_last(), n);
        let prev = drop_nexus(ns.drop_last(), n);
        if ns.last().0 != n {
            assert forall|k: int| 0 <= k < prev.push(ns.last()).len() implies (#[trigger] prev.push(ns.last())[k]).0 != n by {
                if k < prev.len() {
                    assert(prev.push(ns.last())[k] == prev[k]);
                }
            }
        }
    }
}

/// `for_nexus` skips a leading stretch of rows that do not map `n`.
proof fn lemma_for_nexus_at(rows: Seq<CatM>, n: i32, i: int)
    requires
        0 <= i < rows.len(),
        forall|j: int, k: int| 0 <= j < i && 0 <= k < rows[j].3.len() ==> (#[trigger] rows[j].3[k]).0 != n,
        exists|k: int| 0 <= k < rows[i].3.len() && (#[trigger] rows[i].3[k]).0 == n,
    ensures
        for_nexus(rows, n) == Some(rows[i].0),
    decreases i,
{
    if i > 0 {
        let t = rows.drop_first();
        assert forall|j: int, k: int| 0 <= j < i - 1 && 0 <= k < t[j].3.len() implies (#[trigger] t[j].3[k]).0 != n by {
            assert(t[j] == rows[j + 1]);
        }
        assert(t[i - 1] == rows[i]);
        lemma_for_nexus_at(t, n, i - 1);
        assert(!exists|k: int| 0 <= k < rows[0].3.len() && (#[trigger] rows[0].3[k]).0 == n);
    }
}

/// Learning a Nexus id re-points it instead of duplicating it: afterwards it
/// resolves to the chosen category, and that row's new mapping is the only one
/// in the whole catalog that holds it.
pub proof fn lemma_learn_repoints(rows: Seq<CatM>, local: i32, n: i32, name: Seq<char>)
    requires
        index_of(rows, local) is Some,
    ensures
        for_nexus(learned(rows, local, n, name), n) == Some(local),
        ({
            let r = learned(rows, local, n, name);
            let i = index_of(rows, local)->0;
            forall|j: int, k: int| 0 <= j < r.len() && 0 <= k < r[j].3.len() && (#[trigger] r[j].3[k]).0 == n
                ==> j == i && k == r[i].3.len() - 1
        }),
{
    lemma_index_of(rows, local);
    let i = index_of(rows, local)->0;
    let s = strip_nexus(rows, n);
    let r = learned(rows, local, n, name);
    assert forall|j: int, k: int| 0 <= j < r.len() && 0 <= k < r[j].3.len() && (#[trigger] r[j].3[k]).0 == n
        implies j == i && k == r[i].3.len() - 1 by {
        lemma_drop_nexus(rows[j].3, n);
        assert(s[j].3 == drop_nexus(rows[j].3, n));
        if j != i {
            assert(r[j] == s[j]);
        } else if k < r[i].3.len() - 1 {
            assert(r[i].3[k] == s[i].3[k]);
        }
    }
    assert forall|j: int, k: int| 0 <= j < i && 0 <= k < r[j].3.len() implies (#[trigger] r[j].3[k]).0 != n by {
        lemma_drop_nexus(rows[j].3, n);
        assert(r[j] == s[j]);
        assert(s[j].3 == drop_nexus(rows[j].3, n));
    }
    let last = r[i].3.len() - 1;
    assert(r[i].3[last].0 == n);
    lemma_for_nexus_at(r, n, i);
}

/// The rows without their Nexus mappings (what `categories.dat` holds).
pub open spec fn without_mappings(rows: Seq<CatM>) -> Seq<CatM> {
    rows.map_values(|r: CatM| (r.0, r.1, r.2, Seq::<NexM>::empty()))
}

/// A catalog `to_dat` writes and `parse_dat` reads back row for row: ids
/// unique and not 0, names trimmed, on one line and without a `|`.
pub open spec fn dat_writable(rows: Seq<CatM>) -> bool {
    &&& ids_unique(rows)
    &&& forall|i: int| 0 <= i < rows.len() ==> (#[trigger] rows[i]).0 != 0 && trim(rows[i].1) == rows[i].1
        && forall|j: int| 0 <= j < rows[i].1.len() ==> rows[i].1[j] != '\n' && rows[i].1[j] != '|'
}

/// A `categories.dat` line without its terminator.
spec fn dat_cells(r: CatM) -> Seq<char> {
    dec_int(r.0 as int) + seq!['|'] + r.1 + seq!['|'] + dec_int(r.2 as int)
}

proof fn lemma_no_char_split(s: Seq<char>, c: char)
    requires
        forall|j: int| 0 <= j < s.len() ==> s[j] != c,
    ensures
        split_on(s, c) == seq![s],
{
    crate::text::lemma_find_char_some(s, c);
}

proof fn lemma_dat_cells(r: CatM)
    requires
        forall|j: int| 0 <= j < r.1.len() ==> r.1[j] != '\n' && r.1[j] != '|',
    ensures
        split_on(dat_cells(r), '|') == seq![dec_int(r.0 as int), r.1, dec_int(r.2 as int)],
        forall|j: int| 0 <= j < dat_cells(r).len() ==> dat_cells(r)[j] != '\n',
        trim(dat_cells(r)) == dat_cells(r),
        dat_cells(r).len() > 0,
        crate::text::strip_cr(dat_cells(r)) == dat_cells(r),
        dat_line(r) == dat_cells(r) + seq!['\n'],
{
    let a = dec_int(r.0 as int);
    let p = dec_int(r.2 as int);
    crate::text::lemma_parse_dec_int(r.0);
    crate::text::lemma_parse_dec_int(r.2);
    let l = dat_cells(r);
    assert forall|j: int| 0 <= j < a.len() implies a[j] != '|' && a[j] != '\n' by {
        assert(a[j] == '-' || crate::text::is_digit(a[j]));
    }
    assert forall|j: int| 0 <= j < p.len() implies p[j] != '|' && p[j] != '\n' by {
        assert(p[j] == '-' || crate::text::is_digit(p[j]));
    }
    lemma_no_char_split(a, '|');
    lemma_no_char_split(r.1, '|');
    lemma_no_char_split(p, '|');
    crate::text::lemma_split_on_append(r.1, p, '|');
    crate::text::lemma_split_on_append(a, r.1 + seq!['|'] + p, '|');
    assert(l =~= a + seq!['|'] + (r.1 + seq!['|'] + p));
    assert(split_on(l, '|') =~= seq![a, r.1, p]);
    assert forall|j: int| 0 <= j < l.len() implies l[j] != '\n' by {
        if j < a.len() {
            assert(l[j] == a[j]);
        } else if j > a.len() && j < a.len() + 1 + r.1.len() {
            assert(l[j] == r.1[j - a.len() - 1]);
        } else if j > a.len() + r.1.len() + 1 {
            assert(l[j] == p[j - a.len() - r.1.len() - 2]);
        }
    }
    assert(l[0] == a[0]);
    assert(a[0] == '-' || crate::text::is_digit(a[0]));
    assert(l.last() == p.last());
    crate::text::lemma_trim_fixed(l);
    assert(dat_line(r) =~= l + seq!['\n']);
}

/// One written row reads back as itself, without mappings.
proof fn lemma_dat_row(r: CatM)
    requires
        trim(r.1) == r.1,
        forall|j: int| 0 <= j < r.1.len() ==> r.1[j] != '\n' && r.1[j] != '|',
    ensures
        dat_row(dat_cells(r)) == Some((r.0, r.1, r.2, Seq::<NexM>::empty())),
        forall|j: int| 0 <= j < dat_cells(r).len() ==> dat_cells(r)[j] != '\n',
        crate::text::strip_cr(dat_cells(r)) == dat_cells(r),
        dat_line(r) == dat_cells(r) + seq!['\n'],
{
    lemma_dat_cells(r);
    crate::text::lemma_parse_dec_int(r.0);
    crate::text::lemma_parse_dec_int(r.2);
    let z: Seq<char> = Seq::empty();
    lemma_no_char_split(z, ',');
    assert(crate::text::trim_start(z) =~= z);
    assert(trim(z) =~= z);
    assert(parse_i32_spec(z) is None);
    assert(seq![z].drop_last() =~= Seq::<Seq<char>>::empty());
    assert(seq![z].last() == z);
    assert(ids_of(Seq::<Seq<char>>::empty()) =~= Seq::<i32>::empty());
    assert(ids_of(seq![z]) =~= Seq::<i32>::empty());
    assert(id_list(z) =~= Seq::<i32>::empty());
    let e: Seq<i32> = Seq::empty();
    assert(e.map_values(|n: i32| (n, "Unknown"@)) =~= Seq::<NexM>::empty());
    let cells = split_on(dat_cells(r), '|');
    assert(cells.len() == 3);
    assert(trim(cells[0]) == dec_int(r.0 as int));
    assert(trim(cells[2]) == dec_int(r.2 as int));
    assert(trim(cells[1]) == r.1);
}

/// The lines of a written catalog are its rows' lines.
proof fn lemma_dat_lines(rows: Seq<CatM>)
    requires
        dat_writable(rows),
    ensures
        lines(dat_text(rows)) == rows.map_values(|r: CatM| dat_cells(r)),
        dat_text(rows).len() == 0 || dat_text(rows).last() == '\n',
    decreases rows.len(),
{
    if rows.len() == 0 {
        assert(lines(Seq::<char>::empty()) =~= Seq::<Seq<char>>::empty());
        assert(rows.map_values(|r: CatM| dat_cells(r)) =~= Seq::<Seq<char>>::empty());
    } else {
        let q = rows.drop_last();
        assert(dat_writable(q)) by {
            assert forall|i: int| 0 <= i < q.len() implies (#[trigger] q[i]).0 != 0 && trim(q[i].1) == q[i].1
                && forall|j: int| 0 <= j < q[i].1.len() ==> q[i].1[j] != '\n' && q[i].1[j] != '|' by {
                assert(q[i] == rows[i]);
                assert(rows[i].0 != 0);
            }
        }
        lemma_dat_lines(q);
        let r = rows.last();
        assert(rows[rows.len() - 1].0 != 0);
        lemma_dat_row(r);
        crate::text::lemma_lines_one(dat_cells(r));
        crate::text::lemma_lines_append(dat_text(q), dat_line(r));
        assert(rows.map_values(|r: CatM| dat_cells(r)) =~= q.map_values(|r: CatM| dat_cells(r)).push(dat_cells(r)));
    }
}

/// Reading the written rows puts each one new, in order.
proof fn lemma_dat_rows_written(rows: Seq<CatM>)
    requires
        dat_writable(rows),
    ensures
        dat_rows(rows.map_values(|r: CatM| dat_cells(r))) == without_mappings(rows),
    decreases rows.len(),
{
    if rows.len() > 0 {
        let q = rows.drop_last();
        assert(dat_writable(q)) by {
            assert forall|i: int| 0 <= i < q.len() implies (#[trigger] q[i]).0 != 0 && trim(q[i].1) == q[i].1
                && forall|j: int| 0 <= j < q[i].1.len() ==> q[i].1[j] != '\n' && q[i].1[j] != '|' by {
                assert(q[i] == rows[i]);
                assert(rows[i].0 != 0);
            }
            assert forall|i: int, j: int| 0 <= i < q.len() && 0 <= j < q.len() && i != j implies q[i].0 != q[j].0 by {
                assert(q[i] == rows[i] && q[j] == rows[j]);
            }
        }
        lemma_dat_rows_written(q);
        let r = rows.last();
        let ls = rows.map_values(|r: CatM| dat_cells(r));
        assert(ls.drop_last() =~= q.map_values(|r: CatM| dat_cells(r)));
        assert(rows[rows.len() - 1].0 != 0);
        lemma_dat_row(r);
        let w = without_mappings(q);
        lemma_index_of(w, r.0);
        assert forall|j: int| 0 <= j < w.len() implies w[j].0 != r.0 by {
            assert(w[j].0 == rows[j].0);
        }
        assert(without_mappings(rows) =~= w.push((r.0, r.1, r.2, Seq::<NexM>::empty())));
    } else {
        assert(without_mappings(rows) =~= Seq::<CatM>::empty());
    }
}

/// A catalog saved with [`CategoryFactory::to_dat`] reads back with
/// [`CategoryFactory::parse_dat`] as the same rows in the same order (their
/// Nexus mappings live in the other file), whenever it is fit to write.
pub proof fn lemma_dat_round_trip(rows: Seq<CatM>)
    requires
        dat_writable(rows),
        rows.len() > 0,
    ensures
        parse_dat_spec(dat_text(rows)) == without_mappings(rows),
{
    lemma_dat_lines(rows);
    lemma_dat_rows_written(rows);
}

/// The rows `to_dat` writes: those whose id is not 0, in order.
pub open spec fn listed_rows(rows: Seq<CatM>) -> Seq<CatM>
    decreases rows.len(),
{
    if rows.len() == 0 {
        Seq::empty()
    } else {
        let p = listed_rows(rows.drop_last());
        if rows.last().0 == 0 { p } else { p.push(rows.last()) }
    }
}

/// Every row `to_dat` writes has a trimmed name on one line without a `|`.
pub open spec fn dat_names_ok(rows: Seq<CatM>) -> bool {
    forall|i: int| 0 <= i < rows.len() && (#[trigger] rows[i]).0 != 0 ==> trim(rows[i].1) == rows[i].1
        && forall|j: int| 0 <= j < rows[i].1.len() ==> rows[i].1[j] != '\n' && rows[i].1[j] != '|'
}

proof fn lemma_listed_rows(rows: Seq<CatM>)
    requires
        ids_unique(rows),
        dat_names_ok(rows),
    ensures
        dat_text(listed_rows(rows)) == dat_text(rows),
        dat_writable(listed_rows(rows)),
        forall|k: int| 0 <= k < listed_rows(rows).len() ==> exists|i: int| 0 <= i < rows.len() && #[trigger] listed_rows(rows)[k] == rows[i],
    decreases rows.len(),
{
    if rows.len() > 0 {
        let q = rows.drop_last();
        assert(ids_unique(q)) by {
            assert forall|i: int, j: int| 0 <= i < q.len() && 0 <= j < q.len() && i != j implies q[i].0 != q[j].0 by {
                assert(q[i] == rows[i] && q[j] == rows[j]);
            }
        }
        assert(dat_names_ok(q)) by {
            assert forall|i: int| 0 <= i < q.len() && (#[trigger] q[i]).0 != 0 implies trim(q[i].1) == q[i].1
                && forall|j: int| 0 <= j < q[i].1.len() ==> q[i].1[j] != '\n' && q[i].1[j] != '|' by {
                assert(q[i] == rows[i]);
            }
        }
        lemma_listed_rows(q);
        let p = listed_rows(q);
        let r = rows.last();
        if r.0 != 0 {
            let l = p.push(r);
            assert(l.drop_last() =~= p);
            assert(l.last() == r);
            assert forall|k: int| 0 <= k < l.len() implies exists|i: int| 0 <= i < rows.len() && #[trigger] l[k] == rows[i] by {
                if k < p.len() {
                    assert(l[k] == p[k]);
                    let i = choose|i: int| 0 <= i < q.len() && p[k] == q[i];
                    assert(q[i] == rows[i]);
                } else {
                    assert(l[k] == rows[rows.len() - 1]);
                }
            }
            assert forall|a: int, b: int| 0 <= a < l.len() && 0 <= b < l.len() && a != b implies l[a].0 != l[b].0 by {
                if a < p.len() && b < p.len() {
                    assert(l[a] == p[a] && l[b] == p[b]);
                } else if a < p.len() {
                    assert(l[a] == p[a]);
                    let i = choose|i: int| 0 <= i < q.len() && p[a] == q[i];
                    assert(q[i] == rows[i]);
                    assert(l[b] == rows[rows.len() - 1]);
                } else if b < p.len() {
                    assert(l[b] == p[b]);
                    let i = choose|i: int| 0 <= i < q.len() && p[b] == q[i];
                    assert(q[i] == rows[i]);
                    assert(l[a] == rows[rows.len() - 1]);
                }
            }
            assert forall|i: int| 0 <= i < l.len() implies (#[trigger] l[i]).0 != 0 && trim(l[i].1) == l[i].1
                && forall|j: int| 0 <= j < l[i].1.len() ==> l[i].1[j] != '\n' && l[i].1[j] != '|' by {
                if i < p.len() {
                    assert(l[i] == p[i]);
                } else {
                    assert(l[i] == rows[rows.len() - 1]);
                }
            }
        }
    }
}

/// A catalog saved with [`CategoryFactory::to_dat`] reads back with
/// [`CategoryFactory::parse_dat`] as its rows whose id is not 0 (the only ones
/// written), in the same order and without their Nexus mappings, whenever it
/// writes at least one row and every written name is trimmed, on one line and
/// free of `|`.
pub proof fn lemma_dat_round_trip_all(rows: Seq<CatM>)
    requires
        ids_unique(rows),
        dat_names_ok(rows),
        listed_rows(rows).len() > 0,
    ensures
        parse_dat_spec(dat_text(rows)) == without_mappings(listed_rows(rows)),
{
    lemma_listed_rows(rows);
    lemma_dat_round_trip(listed_rows(rows));
}

/// Mappings `to_nexus_map` writes and `merge_nexus_map` reads back: names
/// trimmed, on one line and without a `|`, and no Nexus id mapped twice in the
/// whole catalog.
pub open spec fn map_writable(rows: Seq<CatM>) -> bool {
    &&& ids_unique(rows)
    &&& forall|j: int, k: int| 0 <= j < rows.len() && 0 <= k < rows[j].3.len() ==> {
        let nm = #[trigger] rows[j].3[k];
        trim(nm.1) == nm.1 && forall|c: int| 0 <= c < nm.1.len() ==> nm.1[c] != '\n' && nm.1[c] != '|'
    }
    &&& forall|j: int, k: int, j2: int, k2: int|
        0 <= j < rows.len() && 0 <= k < rows[j].3.len() && 0 <= j2 < rows.len() && 0 <= k2 < rows[j2].3.len()
            && (#[trigger] rows[j].3[k]).0 == (#[trigger] rows[j2].3[k2]).0 ==> j == j2 && k == k2
}

/// The catalog part-way through reading the mappings back: rows before `k`
/// complete, row `k` with its first `m` mappings, later rows with none.
spec fn partly(rows: Seq<CatM>, k: int, m: int) -> Seq<CatM> {
    Seq::new(rows.len(), |j: int| if j < k {
        rows[j]
    } else if j == k {
        (rows[j].0, rows[j].1, rows[j].2, rows[j].3.take(m))
    } else {
        (rows[j].0, rows[j].1, rows[j].2, Seq::<NexM>::empty())
    })
}

proof fn lemma_merge_lines_append(base: Seq<CatM>, a: Seq<Seq<char>>, b: Seq<Seq<char>>)
    ensures
        merge_lines(base, a + b) == merge_lines(merge_lines(base, a), b),
    decreases b.len(),
{
    if b.len() == 0 {
        assert(a + b =~= a);
    } else {
        lemma_merge_lines_append(base, a, b.drop_last());
        assert((a + b).drop_last() =~= a + b.drop_last());
        assert((a + b).last() == b.last());
    }
}

proof fn lemma_drop_absent(ns: Seq<NexM>, n: i32)
    requires
        forall|k: int| 0 <= k < ns.len() ==> (#[trigger] ns[k]).0 != n,
    ensures
        drop_nexus(ns, n) == ns,
    decreases ns.len(),
{
    if ns.len() > 0 {
        lemma_drop_absent(ns.drop_last(), n);
        assert(ns.drop_last().push(ns.last()) =~= ns);
    }
}

/// Reading back one mapping line adds that mapping to its row.
proof fn lemma_map_step(rows: Seq<CatM>, k: int, m: int)
    requires
        map_writable(rows),
        0 <= k < rows.len(),
        0 <= m < rows[k].3.len(),
    ensures
        merge_line(partly(rows, k, m), dat_cells((rows[k].0, rows[k].3[m].1, rows[k].3[m].0, Seq::<NexM>::empty())))
            == partly(rows, k, m + 1),
{
    let nm = rows[k].3[m];
    let r = (rows[k].0, nm.1, nm.0, Seq::<NexM>::empty());
    assert(trim(nm.1) == nm.1);
    lemma_dat_cells(r);
    crate::text::lemma_parse_dec_int(rows[k].0);
    crate::text::lemma_parse_dec_int(nm.0);
    let st = partly(rows, k, m);
    let n = nm.0;
    assert forall|j: int| 0 <= j < st.len() implies #[trigger] drop_nexus(st[j].3, n) == st[j].3 by {
        assert forall|q: int| 0 <= q < st[j].3.len() implies (#[trigger] st[j].3[q]).0 != n by {
            if j < k {
                assert(st[j].3[q] == rows[j].3[q]);
            } else if j == k {
                assert(st[j].3[q] == rows[k].3[q]);
            }
        }
        lemma_drop_absent(st[j].3, n);
    }
    assert(strip_nexus(st, n) =~= st);
    assert(ids_unique(st)) by {
        assert forall|a: int, b: int| 0 <= a < st.len() && 0 <= b < st.len() && a != b implies st[a].0 != st[b].0 by {
            assert(st[a].0 == rows[a].0 && st[b].0 == rows[b].0);
        }
    }
    lemma_index_of_at(st, rows[k].0, k);
    assert(rows[k].3.take(m).push(nm) =~= rows[k].3.take(m + 1));
    assert(st.update(k, (st[k].0, st[k].1, st[k].2, st[k].3.push((n, nm.1)))) =~= partly(rows, k, m + 1));
}

/// Reading back the first `m` mapping lines of row `k`.
proof fn lemma_map_row(rows: Seq<CatM>, k: int, m: int)
    requires
        map_writable(rows),
        0 <= k < rows.len(),
        0 <= m <= rows[k].3.len(),
    ensures
        merge_lines(partly(rows, k, 0), lines(nexus_lines(rows[k].0, rows[k].3.take(m)))) == partly(rows, k, m),
        nexus_lines(rows[k].0, rows[k].3.take(m)).len() == 0 || nexus_lines(rows[k].0, rows[k].3.take(m)).last() == '\n',
    decreases m,
{
    let ns = rows[k].3.take(m);
    if m == 0 {
        assert(ns =~= Seq::<NexM>::empty());
        assert(lines(Seq::<char>::empty()) =~= Seq::<Seq<char>>::empty());
    } else {
        lemma_map_row(rows, k, m - 1);
        assert(ns.drop_last() =~= rows[k].3.take(m - 1));
        let nm = rows[k].3[m - 1];
        assert(ns.last() == nm);
        let r = (rows[k].0, nm.1, nm.0, Seq::<NexM>::empty());
        assert(trim(nm.1) == nm.1);
        lemma_dat_cells(r);
        let prev = nexus_lines(rows[k].0, rows[k].3.take(m - 1));
        assert(nexus_lines(rows[k].0, ns) =~= prev + dat_line(r));
        crate::text::lemma_lines_one(dat_cells(r));
        crate::text::lemma_lines_append(prev, dat_line(r));
        lemma_merge_lines_append(partly(rows, k, 0), lines(prev), seq![dat_cells(r)]);
        assert(seq![dat_cells(r)].drop_last() =~= Seq::<Seq<char>>::empty());
        lemma_map_step(rows, k, m - 1);
        assert(lines(dat_line(r)) == seq![dat_cells(r)]);
        assert(lines(nexus_lines(rows[k].0, ns)) == lines(prev) + seq![dat_cells(r)]);
        assert(merge_lines(partly(rows, k, 0), lines(prev)) == partly(rows, k, m - 1));
        assert(merge_lines(partly(rows, k, m - 1), Seq::<Seq<char>>::empty()) == partly(rows, k, m - 1));
        assert(seq![dat_cells(r)].last() == dat_cells(r));
        assert(merge_lines(partly(rows, k, m - 1), seq![dat_cells(r)]) == merge_line(partly(rows, k, m - 1), dat_cells(r)));
    }
}

/// Reading back the mapping lines of the first `k` rows.
proof fn lemma_map_rows(rows: Seq<CatM>, k: int)
    requires
        map_writable(rows),
        0 <= k <= rows.len(),
    ensures
        merge_lines(partly(rows, 0, 0), lines(nexus_text(rows.take(k)))) == partly(rows, k, 0),
        nexus_text(rows.take(k)).len() == 0 || nexus_text(rows.take(k)).last() == '\n',
    decreases k,
{
    if k == 0 {
        assert(rows.take(0) =~= Seq::<CatM>::empty());
        assert(lines(Seq::<char>::empty()) =~= Seq::<Seq<char>>::empty());
    } else {
        lemma_map_rows(rows, k - 1);
        let t = rows.take(k);
        assert(t.drop_last() =~= rows.take(k - 1));
        assert(t.last() == rows[k - 1]);
        let len = rows[k - 1].3.len() as int;
        lemma_map_row(rows, k - 1, len);
        assert(rows[k - 1].3.take(len) =~= rows[k - 1].3);
        assert(partly(rows, k, 0) =~= partly(rows, k - 1, len)) by {
            assert forall|j: int| 0 <= j < rows.len() implies #[trigger] partly(rows, k, 0)[j] == partly(rows, k - 1, len)[j] by {
                if j == k - 1 {
                    assert(rows[j].3.take(len) =~= rows[j].3);
                } else if j == k {
                    assert(rows[j].3.take(0) =~= Seq::<NexM>::empty());
                }
            }
        }
        let prev = nexus_text(rows.take(k - 1));
        let cur = nexus_lines(rows[k - 1].0, rows[k - 1].3);
        crate::text::lemma_lines_append(prev, cur);
        lemma_merge_lines_append(partly(rows, 0, 0), lines(prev), lines(cur));
        if cur.len() > 0 {
            assert((prev + cur).last() == cur.last());
        } else {
            assert(prev + cur =~= prev);
        }
    }
}

/// Both catalog files saved with [`CategoryFactory::to_dat`] and
/// [`CategoryFactory::to_nexus_map`] load back as the same catalog: the same
/// rows in the same order, each with its Nexus mappings in order, whenever it
/// is fit to write.
pub proof fn lemma_catalog_round_trip(rows: Seq<CatM>)
    requires
        dat_writable(rows),
        map_writable(rows),
        rows.len() > 0,
    ensures
        merge_lines(parse_dat_spec(dat_text(rows)), lines(nexus_text(rows))) == rows,
{
    lemma_dat_round_trip(rows);
    assert(partly(rows, 0, 0) =~= without_mappings(rows)) by {
        assert forall|j: int| 0 <= j < rows.len() implies #[trigger] partly(rows, 0, 0)[j] == without_mappings(rows)[j] by {
            if j == 0 {
                assert(rows[0].3.take(0) =~= Seq::<NexM>::empty());
            }
        }
    }
    lemma_map_rows(rows, rows.len() as int);
    assert(rows.take(rows.len() as int) =~= rows);
    assert(partly(rows, rows.len() as int, 0) =~= rows);
}

/// Ids joined by commas, without the trailing one.
spec fn comma_body(ids: Seq<i32>) -> Seq<char>
    decreases ids.len(),
{
    if ids.len() <= 1 {
        if ids.len() == 1 { dec_int(ids[0] as int) } else { Seq::empty() }
    } else {
        comma_body(ids.drop_last()) + seq![','] + dec_int(ids.last() as int)
    }
}

proof fn lemma_dec_int_no_comma(x: i32)
    ensures
        forall|j: int| 0 <= j < dec_int(x as int).len() ==> dec_int(x as int)[j] != ',',
{
    crate::text::lemma_parse_dec_int(x);
    assert forall|j: int| 0 <= j < dec_int(x as int).len() implies dec_int(x as int)[j] != ',' by {
        assert(dec_int(x as int)[j] == '-' || crate::text::is_digit(dec_int(x as int)[j]));
    }
}

proof fn lemma_comma_body(ids: Seq<i32>)
    requires
        ids.len() > 0,
    ensures
        comma_list(ids) == comma_body(ids) + seq![','],
        split_on(comma_body(ids), ',') == ids.map_values(|x: i32| dec_int(x as int)),
    decreases ids.len(),
{
    let d = dec_int(ids.last() as int);
    lemma_dec_int_no_comma(ids.last());
    lemma_no_char_split(d, ',');
    if ids.len() == 1 {
        assert(ids.drop_last() =~= Seq::<i32>::empty());
        assert(comma_list(ids.drop_last()) =~= Seq::<char>::empty());
        assert(comma_list(ids) =~= d + seq![',']);
        assert(ids.last() == ids[0]);
        assert(ids.map_values(|x: i32| dec_int(x as int)) =~= seq![d]);
    } else {
        let q = ids.drop_last();
        lemma_comma_body(q);
        assert(comma_list(ids) =~= comma_body(ids) + seq![',']);
        crate::text::lemma_split_on_append(comma_body(q), d, ',');
        assert(ids.map_values(|x: i32| dec_int(x as int)) =~= q.map_values(|x: i32| dec_int(x as int)) + seq![d]);
    }
}

proof fn lemma_ids_of_written(ids: Seq<i32>)
    ensures
        ids_of(ids.map_values(|x: i32| dec_int(x as int))) == ids,
    decreases ids.len(),
{
    if ids.len() > 0 {
        let q = ids.drop_last();
        lemma_ids_of_written(q);
        crate::text::lemma_parse_dec_int(ids.last());
        let m = ids.map_values(|x: i32| dec_int(x as int));
        assert(m.drop_last() =~= q.map_values(|x: i32| dec_int(x as int)));
        assert(m.last() == dec_int(ids.last() as int));
        assert(q.push(ids.last()) =~= ids);
    } else {
        assert(ids.map_values(|x: i32| dec_int(x as int)) =~= Seq::<Seq<char>>::empty());
    }
}

/// What `keep_positive_unique` gives is positive and has no repeats.
proof fn lemma_kpu_clean(ids: Seq<i32>)
    ensures
        forall|i: int| 0 <= i < keep_positive_unique(ids).len() ==> keep_positive_unique(ids)[i] > 0,
        forall|i: int, j: int| 0 <= i < j < keep_positive_unique(ids).len() ==> keep_positive_unique(ids)[i] != keep_positive_unique(ids)[j],
    decreases ids.len(),
{
    if ids.len() > 0 {
        lemma_kpu_clean(ids.drop_last());
        let prev = keep_positive_unique(ids.drop_last());
        let id = ids.last();
        if id > 0 && !prev.contains(id) {
            let r = prev.push(id);
            assert forall|i: int| 0 <= i < r.len() implies r[i] > 0 by {
                if i < prev.len() {
                    assert(r[i] == prev[i]);
                }
            }
            assert forall|i: int, j: int| 0 <= i < j < r.len() implies r[i] != r[j] by {
                assert(r[i] == prev[i]);
                if j == prev.len() {
                    assert(prev.contains(prev[i]));
                } else {
                    assert(r[j] == prev[j]);
                }
            }
        }
    }
}

/// On ids that are positive and distinct, `keep_positive_unique` changes nothing.
proof fn lemma_kpu_fixed(ids: Seq<i32>)
    requires
        forall|i: int| 0 <= i < ids.len() ==> ids[i] > 0,
        forall|i: int, j: int| 0 <= i < j < ids.len() ==> ids[i] != ids[j],
    ensures
        keep_positive_unique(ids) == ids,
    decreases ids.len(),
{
    if ids.len() > 0 {
        let q = ids.drop_last();
        lemma_kpu_fixed(q);
        assert(!q.contains(ids.last())) by {
            if q.contains(ids.last()) {
                let k = choose|k: int| 0 <= k < q.len() && q[k] == ids.last();
                assert(ids[k] == ids[ids.len() - 1]);
            }
        }
        assert(q.push(ids.last()) =~= ids);
    }
}

proof fn lemma_empty_cell()
    ensures
        ids_of(seq![Seq::<char>::empty()]) == Seq::<i32>::empty(),
        first_positive(seq![Seq::<char>::empty()]) is None,
{
    let z: Seq<char> = Seq::empty();
    assert(crate::text::trim_start(z) =~= z);
    assert(trim(z) =~= z);
    assert(parse_i32_spec(z) is None);
    assert(seq![z].drop_last() =~= Seq::<Seq<char>>::empty());
    assert(seq![z].drop_first() =~= Seq::<Seq<char>>::empty());
    assert(seq![z].last() == z);
    assert(seq![z][0] == z);
    assert(first_positive(Seq::<Seq<char>>::empty()) is None);
    assert(ids_of(Seq::<Seq<char>>::empty()) =~= Seq::<i32>::empty());
}

#[verifier::spinoff_prover]
proof fn lemma_round_trip_uncategorised(primary: Option<i32>, others: Seq<i32>)
    requires
        category_ids(primary, others).len() == 0,
    ensures
        keep_positive_unique(id_list(format_spec(primary, others))) == category_ids(primary, others),
        first_positive(split_on(format_spec(primary, others), ',')) is None,
{
    lemma_empty_cell();
    let z: Seq<char> = Seq::empty();
    let m1 = seq!['-', '1'];
    assert(format_spec(primary, others) =~= m1 + seq![','] + z);
    crate::text::lemma_split_on_append(m1, z, ',');
    lemma_no_char_split(m1, ',');
    lemma_no_char_split(z, ',');
    let cells = split_on(format_spec(primary, others), ',');
    assert(cells =~= seq![m1, z]);
    crate::text::lemma_parse_dec_int(-1i32);
    assert(dec_int(-1) =~= m1) by {
        reveal_with_fuel(crate::text::dec, 2);
    }
    assert(cells.drop_last() =~= seq![m1]);
    assert(seq![m1].drop_last() =~= Seq::<Seq<char>>::empty());
    assert(ids_of(Seq::<Seq<char>>::empty()) =~= Seq::<i32>::empty());
    assert(ids_of(seq![m1]) =~= seq![-1i32]);
    assert(ids_of(cells) =~= seq![-1i32]);
    assert(seq![-1i32].drop_last() =~= Seq::<i32>::empty());
    assert(seq![-1i32].last() == -1i32);
    assert(keep_positive_unique(Seq::<i32>::empty()) =~= Seq::<i32>::empty());
    assert(keep_positive_unique(seq![-1i32]) =~= Seq::<i32>::empty());
    assert(cells.drop_first() =~= seq![z]);
}

#[verifier::spinoff_prover]
proof fn lemma_round_trip_categorised(primary: Option<i32>, others: Seq<i32>)
    requires
        category_ids(primary, others).len() > 0,
    ensures
        keep_positive_unique(id_list(format_spec(primary, others))) == category_ids(primary, others),
        first_positive(split_on(format_spec(primary, others), ',')) == Some(category_ids(primary, others)[0]),
{
    let ids = category_ids(primary, others);
    let start: Seq<i32> = match primary {
        Some(p) => if p > 0 { seq![p] } else { Seq::empty() },
        None => Seq::empty(),
    };
    lemma_kpu_clean(start + others);
    let z: Seq<char> = Seq::empty();
    lemma_empty_cell();
    lemma_comma_body(ids);
    let body = comma_body(ids);
    assert(format_spec(primary, others) =~= body + seq![','] + z);
    crate::text::lemma_split_on_append(body, z, ',');
    lemma_no_char_split(z, ',');
    let ws = ids.map_values(|x: i32| dec_int(x as int));
    let cells = split_on(format_spec(primary, others), ',');
    assert(cells =~= ws + seq![z]);
    lemma_ids_of_written(ids);
    assert(cells.drop_last() =~= ws);
    assert(cells.last() == z);
    lemma_kpu_fixed(ids);
    crate::text::lemma_parse_dec_int(ids[0]);
    assert(cells[0] == dec_int(ids[0] as int));
    assert(ids[0] > 0);
}

/// A category list written with [`format_categories`] reads back with
/// [`parse_all`] as exactly the ids written, and with [`parse_primary`] as
/// the first of them (none for the uncategorised placeholder).
pub proof fn lemma_categories_round_trip(primary: Option<i32>, others: Seq<i32>)
    ensures
        keep_positive_unique(id_list(format_spec(primary, others))) == category_ids(primary, others),
        first_positive(split_on(format_spec(primary, others), ','))
            == (if category_ids(primary, others).len() > 0 { Some(category_ids(primary, others)[0]) } else { None }),
{
    if category_ids(primary, others).len() == 0 {
        lemma_round_trip_uncategorised(primary, others);
    } else {
        lemma_round_trip_categorised(primary, others);
    }
}

/// The first positive id of a list.
pub open spec fn first_positive_id(ids: Seq<i32>) -> Option<i32>
    decreases ids.len(),
{
    if ids.len() == 0 {
        None
    } else if ids[0] > 0 {
        Some(ids[0])
    } else {
        first_positive_id(ids.drop_first())
    }
}

/// The ids one cell contributes.
pub open spec fn cell_ids(c: Seq<char>) -> Seq<i32> {
    match parse_i32_spec(trim(c)) {
        Some(v) => seq![v],
        None => Seq::empty(),
    }
}

proof fn lemma_ids_of_front(cells: Seq<Seq<char>>)
    requires
        cells.len() > 0,
    ensures
        ids_of(cells) == cell_ids(cells[0]) + ids_of(cells.drop_first()),
    decreases cells.len(),
{
    if cells.len() == 1 {
        assert(cells.drop_last() =~= Seq::<Seq<char>>::empty());
        assert(cells.drop_first() =~= Seq::<Seq<char>>::empty());
        assert(cells.last() == cells[0]);
        assert(ids_of(cells.drop_last()) =~= Seq::<i32>::empty());
        assert(ids_of(cells.drop_first()) =~= Seq::<i32>::empty());
        match parse_i32_spec(trim(cells[0])) {
            Some(v) => assert(ids_of(cells) =~= seq![v]),
            None => assert(ids_of(cells) =~= Seq::<i32>::empty()),
        }
        assert(ids_of(cells) =~= cell_ids(cells[0]) + ids_of(cells.drop_first()));
    } else {
        lemma_ids_of_front(cells.drop_last());
        assert(cells.drop_last()[0] == cells[0]);
        assert(cells.drop_last().drop_first() =~= cells.drop_first().drop_last());
        assert(cells.drop_first().last() == cells.last());
        assert(ids_of(cells) =~= cell_ids(cells[0]) + ids_of(cells.drop_first()));
    }
}

proof fn lemma_first_positive_ids(cells: Seq<Seq<char>>)
    ensures
        first_positive(cells) == first_positive_id(ids_of(cells)),
    decreases cells.len(),
{
    if cells.len() > 0 {
        lemma_ids_of_front(cells);
        lemma_first_positive_ids(cells.drop_first());
        let rest = ids_of(cells.drop_first());
        match parse_i32_spec(trim(cells[0])) {
            Some(v) => {
                assert((seq![v] + rest)[0] == v);
                assert((seq![v] + rest).drop_first() =~= rest);
            },
            None => {
                assert(Seq::<i32>::empty() + rest =~= rest);
            },
        }
    } else {
        assert(ids_of(cells) =~= Seq::<i32>::empty());
    }
}

proof fn lemma_first_positive_push(ids: Seq<i32>, a: i32)
    ensures
        first_positive_id(ids.push(a)) == match first_positive_id(ids) {
            Some(x) => Some(x),
            None => if a > 0 { Some(a) } else { None },
        },
    decreases ids.len(),
{
    if ids.len() == 0 {
        assert(ids.push(a)[0] == a);
        assert(ids.push(a).drop_first() =~= Seq::<i32>::empty());
    } else {
        assert(ids.push(a)[0] == ids[0]);
        assert(ids.push(a).drop_first() =~= ids.drop_first().push(a));
        lemma_first_positive_push(ids.drop_first(), a);
    }
}

proof fn lemma_first_positive_kept(ids: Seq<i32>)
    ensures
        first_positive_id(ids) == (if keep_positive_unique(ids).len() > 0 {
            Some(keep_positive_unique(ids)[0])
        } else {
            None
        }),
    decreases ids.len(),
{
    if ids.len() > 0 {
        let q = ids.drop_last();
        lemma_first_positive_kept(q);
        assert(q.push(ids.last()) =~= ids);
        lemma_first_positive_push(q, ids.last());
    }
}

/// A mod's primary category is the first of all its categories:
/// [`parse_primary`] gives the head of what [`parse_all`] gives, and nothing
/// exactly when that is empty.
pub proof fn lemma_primary_heads_all(raw: Seq<char>)
    ensures
        first_positive(split_on(raw, ',')) == (if keep_positive_unique(id_list(raw)).len() > 0 {
            Some(keep_positive_unique(id_list(raw))[0])
        } else {
            None
        }),
{
    lemma_first_positive_ids(split_on(raw, ','));
    lemma_first_positive_kept(id_list(raw));
}

} // verus!
