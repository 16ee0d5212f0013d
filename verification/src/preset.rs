//! Named, durable stream-configuration presets.
//!
//! A preset couples a non-empty name with an optional descriptor source.
//! Presets are kept as a mapping from name to record; a save replaces the
//! whole record under its name (last write wins). The backing resource is
//! a single structured text document; reading and writing the document's
//! bytes is the surrounding program's part, while parsing, merging and
//! rendering happen here, verified.

use vstd::prelude::*;

use crate::codec;
use crate::descriptor::{Descriptor, DescriptorView};

verus! {

/// A named stream configuration. The descriptor source is optional: a
/// preset may be saved while still incomplete.
#[derive(Clone, PartialEq, Debug)]
pub struct Preset {
    pub name: String,
    pub source: Option<Descriptor>,
}

/// The mathematical value of a `Preset`.
pub struct PresetView {
    pub name: Seq<char>,
    pub source: Option<DescriptorView>,
}

/// The mathematical value of an optional descriptor source.
pub open spec fn source_view(source: Option<Descriptor>) -> Option<DescriptorView> {
    match source {
        Some(d) => Some(d@),
        None => None,
    }
}

impl View for Preset {
    type V = PresetView;

    open spec fn view(&self) -> PresetView {
        PresetView { name: self.name@, source: source_view(self.source) }
    }
}

/// The values of a sequence of records.
pub open spec fn views_of(items: Seq<Preset>) -> Seq<PresetView> {
    items.map_values(|p: Preset| p@)
}

/// Every record is well-formed.
pub open spec fn all_wf(ps: Seq<PresetView>) -> bool {
    forall|i: int| 0 <= i < ps.len() ==> (#[trigger] ps[i]).wf()
}

/// No two records share a name.
pub open spec fn names_unique(ps: Seq<PresetView>) -> bool {
    forall|i: int, j: int| 0 <= i < j < ps.len() ==> ps[i].name != ps[j].name
}

impl PresetView {
    /// A preset record's invariant: the name is non-empty and fits in
    /// memory, and a populated source is well-formed.
    pub open spec fn wf(self) -> bool {
        &&& 0 < self.name.len() <= usize::MAX
        &&& match self.source {
            Some(d) => d.wf(),
            None => true,
        }
    }
}

/// Errors of the preset store.
#[derive(Clone, Copy, PartialEq, Eq, Structural, Debug)]
pub enum PresetError {
    /// The platform offers no configuration directory.
    NoConfigDir,
    /// Reading or writing the backing resource failed.
    IoError,
    /// The backing resource is present but not parseable.
    YamlError,
}

pub type PresetResult<T> = Result<T, PresetError>;


// ---------------------------------------------------------------------
// The mapping model
// ---------------------------------------------------------------------

/// Whether some record carries this name.
pub open spec fn has_name(ps: Seq<PresetView>, n: Seq<char>) -> bool {
    exists|i: int| 0 <= i < ps.len() && (#[trigger] ps[i]).name == n
}

/// The index of the record carrying this name.
pub open spec fn idx_of_name(ps: Seq<PresetView>, n: Seq<char>) -> int {
    choose|i: int| 0 <= i < ps.len() && (#[trigger] ps[i]).name == n
}

/// Replaces the record under this name, or adds it at the end: last
/// write wins, whole record at a time.
pub open spec fn upsert(ps: Seq<PresetView>, p: PresetView) -> Seq<PresetView> {
    if has_name(ps, p.name) {
        ps.update(idx_of_name(ps, p.name), p)
    } else {
        ps.push(p)
    }
}

/// The mapping a record sequence denotes: later records win.
pub open spec fn map_of(ps: Seq<PresetView>) -> Map<Seq<char>, PresetView>
    decreases ps.len(),
{
    if ps.len() == 0 {
        Map::<Seq<char>, PresetView>::empty()
    } else {
        map_of(ps.drop_last()).insert(ps.last().name, ps.last())
    }
}

/// What a record sequence's mapping holds: a key per name, and under a
/// unique name exactly that record.
pub proof fn lemma_map_of_props(ps: Seq<PresetView>)
    ensures
        forall|n: Seq<char>| #[trigger] map_of(ps).contains_key(n) <==> has_name(ps, n),
        names_unique(ps) ==> forall|i: int|
            0 <= i < ps.len() ==> map_of(ps).contains_key((#[trigger] ps[i]).name)
                && map_of(ps)[ps[i].name] == ps[i],
    decreases ps.len(),
{
    if ps.len() == 0 {
        assert forall|n: Seq<char>| #[trigger] map_of(ps).contains_key(n) <==> has_name(
            ps,
            n,
        ) by {
            if has_name(ps, n) {
                let i = idx_of_name(ps, n);
                assert(false);
            }
        }
    } else {
        let dl = ps.drop_last();
        let last = ps.last();
        lemma_map_of_props(dl);
        assert forall|n: Seq<char>| #[trigger] map_of(ps).contains_key(n) <==> has_name(
            ps,
            n,
        ) by {
            if map_of(ps).contains_key(n) {
                if n == last.name {
                    assert(ps[ps.len() - 1].name == n);
                } else {
                    assert(map_of(dl).contains_key(n));
                    let i = choose|i: int| 0 <= i < dl.len() && (#[trigger] dl[i]).name == n;
                    assert(ps[i].name == n);
                }
            }
            if has_name(ps, n) {
                let i = choose|i: int| 0 <= i < ps.len() && (#[trigger] ps[i]).name == n;
                if i < ps.len() - 1 {
                    assert(dl[i].name == n);
                    assert(map_of(dl).contains_key(n));
                }
            }
        }
        if names_unique(ps) {
            assert(names_unique(dl)) by {
                assert(forall|i: int, j: int|
                    0 <= i < j < dl.len() ==> dl[i] == ps[i] && dl[j] == ps[j]);
            }
            assert forall|i: int| 0 <= i < ps.len() implies map_of(ps).contains_key(
                (#[trigger] ps[i]).name,
            ) && map_of(ps)[ps[i].name] == ps[i] by {
                if i < ps.len() - 1 {
                    assert(dl[i] == ps[i]);
                    assert(map_of(dl)[ps[i].name] == ps[i]);
                    assert(ps[i].name != last.name);
                } else {
                    assert(map_of(ps)[last.name] == last);
                }
            }
        }
    }
}

/// What an upsert does: names stay unique, records stay well-formed, and
/// the mapping gains exactly the one entry.
pub proof fn lemma_upsert_props(ps: Seq<PresetView>, p: PresetView)
    requires
        names_unique(ps),
        all_wf(ps),
        p.wf(),
    ensures
        names_unique(upsert(ps, p)),
        all_wf(upsert(ps, p)),
        map_of(upsert(ps, p)) == map_of(ps).insert(p.name, p),
{
    let us = upsert(ps, p);
    if has_name(ps, p.name) {
        let i0 = idx_of_name(ps, p.name);
        assert(0 <= i0 < ps.len() && ps[i0].name == p.name);
        assert(us == ps.update(i0, p));
        assert forall|i: int, j: int| 0 <= i < j < us.len() implies us[i].name != us[j].name by {
            if i == i0 {
                assert(us[j] == ps[j]);
                assert(ps[i0].name != ps[j].name);
            } else if j == i0 {
                assert(us[i] == ps[i]);
                assert(ps[i].name != ps[i0].name);
            } else {
                assert(us[i] == ps[i] && us[j] == ps[j]);
            }
        }
        assert forall|i: int| 0 <= i < us.len() implies (#[trigger] us[i]).wf() by {
            if i != i0 {
                assert(us[i] == ps[i]);
            }
        }
    } else {
        assert(us == ps.push(p));
        assert forall|i: int, j: int| 0 <= i < j < us.len() implies us[i].name != us[j].name by {
            if j == us.len() - 1 {
                assert(us[i] == ps[i]);
                if ps[i].name == p.name {
                    assert(has_name(ps, p.name));
                }
            } else {
                assert(us[i] == ps[i] && us[j] == ps[j]);
            }
        }
        assert forall|i: int| 0 <= i < us.len() implies (#[trigger] us[i]).wf() by {
            if i < us.len() - 1 {
                assert(us[i] == ps[i]);
            }
        }
    }
    lemma_map_of_props(ps);
    lemma_map_of_props(us);
    let target = map_of(ps).insert(p.name, p);
    assert forall|n: Seq<char>| #[trigger] map_of(us).contains_key(n) <==> target.contains_key(
        n,
    ) by {
        if has_name(us, n) {
            let i = choose|i: int| 0 <= i < us.len() && (#[trigger] us[i]).name == n;
            if n != p.name {
                assert(us[i] == ps[i]);
                assert(has_name(ps, n));
            }
        }
        if target.contains_key(n) {
            if n == p.name {
                if has_name(ps, p.name) {
                    assert(us[idx_of_name(ps, p.name)].name == n);
                } else {
                    assert(us[us.len() - 1].name == n);
                }
            } else {
                assert(has_name(ps, n));
                let i = choose|i: int| 0 <= i < ps.len() && (#[trigger] ps[i]).name == n;
                assert(us[i].name == n);
            }
        }
    }
    assert forall|n: Seq<char>| #[trigger] map_of(us).contains_key(n) implies map_of(us)[n]
        == target[n] by {
        if n == p.name {
            if has_name(ps, p.name) {
                let i0 = idx_of_name(ps, p.name);
                assert(us[i0] == p);
                assert(map_of(us)[us[i0].name] == us[i0]);
            } else {
                assert(us[us.len() - 1] == p);
                assert(map_of(us)[us[us.len() - 1].name] == us[us.len() - 1]);
            }
        } else {
            assert(has_name(us, n));
            let i = choose|i: int| 0 <= i < us.len() && (#[trigger] us[i]).name == n;
            assert(us[i] == ps[i]);
            assert(map_of(us)[us[i].name] == us[i]);
            assert(map_of(ps)[ps[i].name] == ps[i]);
        }
    }
    assert(map_of(us) =~= target);
}

/// The mapping the store builds from a parsed document: each record
/// inserted in order, so a later record under a name replaces an earlier
/// one.
pub open spec fn sp_fold(ps: Seq<PresetView>) -> Seq<PresetView>
    decreases ps.len(),
{
    if ps.len() == 0 {
        Seq::<PresetView>::empty()
    } else {
        upsert(sp_fold(ps.drop_last()), ps.last())
    }
}

/// Folding well-formed records keeps them well-formed and leaves the
/// names unique.
pub proof fn lemma_sp_fold_props(ps: Seq<PresetView>)
    requires
        all_wf(ps),
    ensures
        names_unique(sp_fold(ps)),
        all_wf(sp_fold(ps)),
    decreases ps.len(),
{
    if ps.len() == 0 {
    } else {
        let dl = ps.drop_last();
        assert(all_wf(dl)) by {
            assert(forall|i: int| 0 <= i < dl.len() ==> dl[i] == ps[i]);
        }
        lemma_sp_fold_props(dl);
        assert(ps.last() == ps[ps.len() - 1]);
        lemma_upsert_props(sp_fold(dl), ps.last());
    }
}

/// A sequence whose names are already unique folds to itself.
pub proof fn lemma_sp_fold_identity(ps: Seq<PresetView>)
    requires
        names_unique(ps),
    ensures
        sp_fold(ps) == ps,
    decreases ps.len(),
{
    if ps.len() == 0 {
        assert(sp_fold(ps) =~= ps);
    } else {
        let dl = ps.drop_last();
        assert(names_unique(dl)) by {
            assert(forall|i: int, j: int|
                0 <= i < j < dl.len() ==> dl[i] == ps[i] && dl[j] == ps[j]);
        }
        lemma_sp_fold_identity(dl);
        if has_name(dl, ps.last().name) {
            let i = idx_of_name(dl, ps.last().name);
            assert(ps[i].name == ps[ps.len() - 1].name);
            assert(false);
        }
        assert(sp_fold(ps) == dl.push(ps.last()));
        assert(dl.push(ps.last()) =~= ps);
    }
}

// ---------------------------------------------------------------------
// The preset map
// ---------------------------------------------------------------------

/// The in-memory mapping from name to preset: a record sequence with
/// unique names, read as a mapping through [`map_of`].
#[derive(Debug)]
pub struct PresetMap {
    items: Vec<Preset>,
}

impl View for PresetMap {
    type V = Seq<PresetView>;

    closed spec fn view(&self) -> Seq<PresetView> {
        views_of(self.items@)
    }
}

/// Compares two texts character by character.
fn str_eq(a: &str, b: &str) -> (r: bool)
    ensures
        r == (a@ == b@),
{
    let na = a.unicode_len();
    let nb = b.unicode_len();
    if na != nb {
        proof {
            if a@ == b@ {
                assert(a@.len() == b@.len());
            }
        }
        return false;
    }
    let mut i: usize = 0;
    while i < na
        invariant
            na == a@.len(),
            nb == b@.len(),
            na == nb,
            0 <= i <= na,
            forall|j: int| 0 <= j < i ==> a@[j] == b@[j],
        decreases na - i,
    {
        if a.get_char(i) != b.get_char(i) {
            proof {
                if a@ == b@ {
                    assert(a@[i as int] == b@[i as int]);
                }
            }
            return false;
        }
        i = i + 1;
    }
    proof {
        assert(a@ =~= b@);
    }
    true
}

impl PresetMap {
    /// The map's invariant: unique names, well-formed records.
    pub open spec fn wf(&self) -> bool {
        names_unique(self@) && all_wf(self@)
    }

    /// An empty mapping.
    pub fn new() -> (r: PresetMap)
        ensures
            r@ =~= Seq::<PresetView>::empty(),
            r.wf(),
    {
        PresetMap { items: Vec::new() }
    }

    /// How many presets are held.
    pub fn len(&self) -> (r: usize)
        ensures
            r == self@.len(),
    {
        self.items.len()
    }

    /// The records, in insertion order.
    pub fn records(&self) -> (r: &Vec<Preset>)
        ensures
            views_of(r@) == self@,
    {
        &self.items
    }

    /// Looks a preset up by name.
    pub fn get(&self, name: &str) -> (r: Option<&Preset>)
        requires
            self.wf(),
        ensures
            match r {
                Some(p) => map_of(self@).contains_key(name@) && p@ == map_of(self@)[name@],
                None => !map_of(self@).contains_key(name@),
            },
    {
        proof {
            lemma_map_of_props(self@);
        }
        let n = self.items.len();
        let mut i: usize = 0;
        while i < n
            invariant
                self.wf(),
                n == self@.len(),
                0 <= i <= n,
                n == self.items@.len(),
                self@ == views_of(self.items@),
                forall|j: int| 0 <= j < i ==> (#[trigger] self@[j]).name != name@,
            decreases n - i,
        {
            if str_eq(self.items[i].name.as_str(), name) {
                proof {
                    lemma_map_of_props(self@);
                    assert(views_of(self.items@)[i as int] == self.items@[i as int]@);
                    assert(self@[i as int].name == name@);
                    assert(map_of(self@)[self@[i as int].name] == self@[i as int]);
                }
                return Some(&self.items[i]);
            }
            i = i + 1;
        }
        proof {
            lemma_map_of_props(self@);
            if has_name(self@, name@) {
                let j = choose|j: int|
                    0 <= j < self@.len() && (#[trigger] self@[j]).name == name@;
                assert(false);
            }
        }
        None
    }

    /// Inserts a preset under its name, replacing the whole record a
    /// name already held: last write wins.
    pub fn insert(&mut self, p: Preset)
        requires
            old(self).wf(),
            p@.wf(),
        ensures
            final(self).wf(),
            final(self)@ == upsert(old(self)@, p@),
            map_of(final(self)@) == map_of(old(self)@).insert(p@.name, p@),
    {
        proof {
            lemma_upsert_props(self@, p@);
        }
        let n = self.items.len();
        let mut i: usize = 0;
        while i < n
            invariant
                old(self).wf(),
                p@.wf(),
                self == old(self),
                n == self.items@.len(),
                0 <= i <= n,
                forall|j: int| 0 <= j < i ==> (#[trigger] self@[j]).name != p@.name,
            decreases n - i,
        {
            if str_eq(self.items[i].name.as_str(), p.name.as_str()) {
                let ghost pre = self.items@;
                proof {
                    lemma_upsert_props(self@, p@);
                    assert(views_of(pre)[i as int] == pre[i as int]@);
                    assert(self@[i as int].name == p@.name);
                    assert(has_name(self@, p@.name));
                    let i0 = idx_of_name(self@, p@.name);
                    assert(0 <= i0 < self@.len() && self@[i0].name == p@.name);
                    if i0 != i as int {
                        assert(self@[i0].name == self@[i as int].name);
                        assert(false);
                    }
                    assert(upsert(self@, p@) == self@.update(i as int, p@));
                }
                self.items.set(i, p);
                proof {
                    let us = upsert(old(self)@, p@);
                    assert(self.items@ == pre.update(i as int, p));
                    assert forall|j: int| 0 <= j < views_of(self.items@).len() implies views_of(
                        self.items@,
                    )[j] == us[j] by {
                        assert(views_of(self.items@)[j] == self.items@[j]@);
                        if j != i as int {
                            assert(self.items@[j] == pre[j]);
                            assert(us[j] == views_of(pre)[j]);
                            assert(views_of(pre)[j] == pre[j]@);
                        }
                    }
                    assert(views_of(self.items@) =~= us);
                }
                return ;
            }
            i = i + 1;
        }
        proof {
            if has_name(self@, p@.name) {
                let j = choose|j: int|
                    0 <= j < self@.len() && (#[trigger] self@[j]).name == p@.name;
                assert(false);
            }
        }
        let ghost pre = self.items@;
        self.items.push(p);
        proof {
            lemma_upsert_props(old(self)@, p@);
            let us = upsert(old(self)@, p@);
            assert(self.items@ == pre.push(p));
            assert forall|j: int| 0 <= j < views_of(self.items@).len() implies views_of(
                self.items@,
            )[j] == us[j] by {
                assert(views_of(self.items@)[j] == self.items@[j]@);
                if j < pre.len() {
                    assert(self.items@[j] == pre[j]);
                    assert(us[j] == views_of(pre)[j]);
                    assert(views_of(pre)[j] == pre[j]@);
                }
            }
            assert(views_of(self.items@) =~= us);
        }
    }
}

// ---------------------------------------------------------------------
// Loading and saving
// ---------------------------------------------------------------------

/// The text handed in, as a value.
pub open spec fn opt_text_view(contents: Option<&str>) -> Option<Seq<char>> {
    match contents {
        Some(t) => Some(t@),
        None => None,
    }
}

/// What loading yields: nothing backing the store means an empty
/// mapping, a well-formed document means its folded records, anything
/// else is a corrupt store.
pub open spec fn sp_load(contents: Option<Seq<char>>) -> Result<Seq<PresetView>, PresetError> {
    match contents {
        None => Ok(Seq::<PresetView>::empty()),
        Some(t) => match codec::sp_presets(t) {
            Some(ps) => Ok(sp_fold(ps)),
            None => Err(PresetError::YamlError),
        },
    }
}

/// What saving yields: the loaded records with the one entry replaced or
/// added, rendered back as a whole document.
pub open spec fn sp_save(p: PresetView, contents: Option<Seq<char>>) -> Result<
    Seq<char>,
    PresetError,
> {
    match sp_load(contents) {
        Ok(items) => Ok(codec::render_presets(upsert(items, p))),
        Err(e) => Err(e),
    }
}

/// Reads the preset mapping out of the backing resource's text. An
/// absent resource is not an error: the first run has no presets. A
/// present but unparseable resource is reported, never swallowed.
pub fn load_presets(contents: Option<&str>) -> (r: PresetResult<PresetMap>)
    ensures
        match r {
            Ok(m) => m.wf() && sp_load(opt_text_view(contents)) == Ok::<
                Seq<PresetView>,
                PresetError,
            >(m@),
            Err(e) => sp_load(opt_text_view(contents)) == Err::<Seq<PresetView>, PresetError>(
                e,
            ),
        },
        contents is None ==> (r matches Ok(m) && m@ =~= Seq::<PresetView>::empty()),
{
    let text = match contents {
        None => {
            return Ok(PresetMap::new());
        },
        Some(t) => t,
    };
    let mut list = match codec::parse_presets(text) {
        None => {
            return Err(PresetError::YamlError);
        },
        Some(l) => l,
    };
    let ghost parsed = views_of(list@);
    let mut m = PresetMap::new();
    let ghost k: int = 0;
    proof {
        assert(parsed.take(0) =~= Seq::<PresetView>::empty());
        assert(views_of(list@) =~= parsed.skip(0));
    }
    while list.len() > 0
        invariant
            all_wf(parsed),
            m.wf(),
            0 <= k <= parsed.len(),
            k + list@.len() == parsed.len(),
            views_of(list@) =~= parsed.skip(k),
            m@ == sp_fold(parsed.take(k)),
        decreases list@.len(),
    {
        let ghost pre = list@;
        let p = list.remove(0);
        proof {
            assert(views_of(pre)[0] == pre[0]@);
            assert(parsed.skip(k)[0] == parsed[k]);
            assert(p@ == parsed[k]);
            assert(parsed[k].wf());
            assert(list@ =~= pre.skip(1));
        }
        m.insert(p);
        proof {
            let t1 = parsed.take(k + 1);
            assert(t1.drop_last() =~= parsed.take(k));
            assert(t1.last() == parsed[k]);
            assert(sp_fold(t1) == upsert(sp_fold(parsed.take(k)), parsed[k]));
            k = k + 1;
            assert forall|i: int| 0 <= i < list@.len() implies views_of(list@)[i]
                == parsed.skip(k)[i] by {
                assert(list@[i] == pre[i + 1]);
                assert(views_of(pre)[i + 1] == pre[i + 1]@);
                assert(views_of(pre)[i + 1] == parsed.skip(k - 1)[i + 1]);
            }
            assert(views_of(list@) =~= parsed.skip(k));
        }
    }
    proof {
        assert(parsed.take(k) =~= parsed);
    }
    Ok(m)
}

/// Reads the current set, replaces the record under the preset's name,
/// and renders the whole updated document: the text to write back
/// atomically. The caller must hold one save's read-modify-write apart
/// from another's; see the crate's program shell.
pub fn save_preset(preset: Preset, contents: Option<&str>) -> (r: PresetResult<String>)
    requires
        preset@.wf(),
    ensures
        match r {
            Ok(out) => sp_save(preset@, opt_text_view(contents)) == Ok::<
                Seq<char>,
                PresetError,
            >(out@),
            Err(e) => sp_save(preset@, opt_text_view(contents)) == Err::<Seq<char>, PresetError>(
                e,
            ),
        },
{
    let mut m = match load_presets(contents) {
        Ok(m) => m,
        Err(e) => {
            return Err(e);
        },
    };
    m.insert(preset);
    let out = codec::render_document(m.records());
    Ok(out)
}

// ---------------------------------------------------------------------
// Laws of the store
// ---------------------------------------------------------------------

/// The common spine of the store laws: a successful save loads back as
/// exactly the previous records with the one entry upserted.
proof fn lemma_save_load_chain(p: PresetView, contents: Option<Seq<char>>)
    requires
        p.wf(),
        sp_save(p, contents) is Ok,
    ensures
        sp_load(contents) is Ok,
        sp_load(Some(sp_save(p, contents)->Ok_0)) == Ok::<Seq<PresetView>, PresetError>(
            upsert(sp_load(contents)->Ok_0, p),
        ),
        names_unique(upsert(sp_load(contents)->Ok_0, p)),
        all_wf(upsert(sp_load(contents)->Ok_0, p)),
        map_of(upsert(sp_load(contents)->Ok_0, p)) == map_of(sp_load(contents)->Ok_0).insert(
            p.name,
            p,
        ),
        names_unique(sp_load(contents)->Ok_0),
        all_wf(sp_load(contents)->Ok_0),
{
    let items0 = sp_load(contents)->Ok_0;
    match contents {
        None => {
            assert(items0 =~= Seq::<PresetView>::empty());
        },
        Some(t) => {
            codec::lemma_sp_presets_wf(t);
            let ps = codec::sp_presets(t)->Some_0;
            lemma_sp_fold_props(ps);
        },
    }
    lemma_upsert_props(items0, p);
    let merged = upsert(items0, p);
    codec::lemma_render_parse_round_trip(merged);
    lemma_sp_fold_identity(merged);
}

/// Round trip: saving a preset and loading everything back yields a
/// mapping holding that preset under its name, field for field.
pub proof fn lemma_preset_round_trip(p: PresetView, contents: Option<Seq<char>>)
    requires
        p.wf(),
        sp_save(p, contents) is Ok,
    ensures
        sp_load(Some(sp_save(p, contents)->Ok_0)) is Ok,
        map_of(sp_load(Some(sp_save(p, contents)->Ok_0))->Ok_0).contains_key(p.name),
        map_of(sp_load(Some(sp_save(p, contents)->Ok_0))->Ok_0)[p.name] == p,
{
    lemma_save_load_chain(p, contents);
}

/// Upsert: saving twice under one name leaves exactly one record for
/// that name, the later one.
pub proof fn lemma_preset_upsert(p1: PresetView, p2: PresetView, contents: Option<Seq<char>>)
    requires
        p1.wf(),
        p2.wf(),
        p2.name == p1.name,
        sp_save(p1, contents) is Ok,
        sp_save(p2, Some(sp_save(p1, contents)->Ok_0)) is Ok,
    ensures
        ({
            let once = sp_save(p1, contents)->Ok_0;
            let twice = sp_save(p2, Some(once))->Ok_0;
            &&& sp_load(Some(twice)) is Ok
            &&& names_unique(sp_load(Some(twice))->Ok_0)
            &&& map_of(sp_load(Some(twice))->Ok_0).contains_key(p1.name)
            &&& map_of(sp_load(Some(twice))->Ok_0)[p1.name] == p2
        }),
{
    lemma_save_load_chain(p1, contents);
    let once = sp_save(p1, contents)->Ok_0;
    lemma_save_load_chain(p2, Some(once));
}

/// Two saves under distinct names lose neither: both records stand in
/// the final mapping. Concurrent callers are serialized around the whole
/// read-modify-write by the store's owner, so each pair of saves runs in
/// one of the two orders this law covers.
pub proof fn lemma_two_saves_keep_both(
    pa: PresetView,
    pb: PresetView,
    contents: Option<Seq<char>>,
)
    requires
        pa.wf(),
        pb.wf(),
        pa.name != pb.name,
        sp_save(pa, contents) is Ok,
        sp_save(pb, Some(sp_save(pa, contents)->Ok_0)) is Ok,
    ensures
        ({
            let first = sp_save(pa, contents)->Ok_0;
            let second = sp_save(pb, Some(first))->Ok_0;
            &&& sp_load(Some(second)) is Ok
            &&& map_of(sp_load(Some(second))->Ok_0).contains_key(pa.name)
            &&& map_of(sp_load(Some(second))->Ok_0)[pa.name] == pa
            &&& map_of(sp_load(Some(second))->Ok_0).contains_key(pb.name)
            &&& map_of(sp_load(Some(second))->Ok_0)[pb.name] == pb
        }),
{
    lemma_save_load_chain(pa, contents);
    let first = sp_save(pa, contents)->Ok_0;
    lemma_save_load_chain(pb, Some(first));
}

} // verus!
