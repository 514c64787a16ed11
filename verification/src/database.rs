//! The fact store: a tag registry, a local-fact tier for callables of the
//! unit under analysis, and an external tier of per-unit override tables.
//!
//! The store is an explicitly constructed value, injected by reference into
//! the inference engine, so that each analysis session owns an isolated
//! instance.  All writes are idempotent inserts: a fact, once recorded, is
//! never overwritten.

use crate::text::str_eq;
use crate::text::trim;
use crate::text::trim_spec;
use vstd::prelude::*;

verus! {

/// Handle to an interned tag name: one handle per distinct name, stable for
/// the whole session.
#[derive(Clone, Copy, PartialEq, Eq, Structural)]
pub struct Tag(usize);

impl Tag {
    /// The position of this tag's name in the session's registry.
    pub closed spec fn idx(self) -> int {
        self.0 as int
    }
}

/// Errors of override-list registration.  `Io` is reserved for callers that
/// read a list from a file and cannot obtain its lines; the parser itself
/// reports only `Format`.
#[derive(Clone, Copy, PartialEq, Eq, Structural, Debug)]
pub enum LoadError {
    /// The backing file could not be read.
    Io,
    /// The first line of the list is not exactly `true` or `false`.
    Format,
}

/// An explicit local fact: callable `callable` is (un)safe for tag `tag`.
struct LocalFact {
    callable: usize,
    tag: usize,
    safe: bool,
}

/// A memoized resolution of one external symbol against its unit's table.
struct ResolvedFact {
    symbol: usize,
    safe: bool,
}

/// Override table for one (dependency unit, tag) pair: a default verdict,
/// the set of fully-qualified names excepted from it, and a lazily filled
/// per-symbol memo of resolutions.
struct ExtTable {
    unit: String,
    tag: usize,
    default: bool,
    exceptions: Vec<String>,
    resolved: Vec<ResolvedFact>,
}

/// Mathematical model of an override table.
#[verifier::ext_equal]
pub ghost struct ExtModel {
    pub default: bool,
    pub exceptions: Set<Seq<char>>,
    pub resolved: Map<int, bool>,
}

/// Mathematical model of the whole fact store: the registry as a sequence of
/// names, the local tier as a map from (callable, tag) to the recorded
/// verdict, and the external tier as a map from (unit name, tag) to a table.
#[verifier::ext_equal]
pub ghost struct CacheModel {
    pub tags: Seq<Seq<char>>,
    pub locals: Map<(int, int), bool>,
    pub exts: Map<(Seq<char>, int), ExtModel>,
}

impl CacheModel {
    /// A session model is well formed when no tag name is registered twice,
    /// so a name determines its handle.
    pub open spec fn wf(self) -> bool {
        self.tags.no_duplicates()
    }

    /// The model of a freshly created store.
    pub open spec fn empty() -> CacheModel {
        CacheModel { tags: Seq::empty(), locals: Map::empty(), exts: Map::empty() }
    }
}

/// First position of `name` in `tags` (equal to `tags.len()` if absent).
pub open spec fn first_index(tags: Seq<Seq<char>>, name: Seq<char>) -> int
    decreases tags.len(),
{
    if tags.len() == 0 {
        0
    } else if tags[0] == name {
        0
    } else {
        1 + first_index(tags.drop_first(), name)
    }
}

/// Interning `name`: the handle it receives and the registry that results.
pub open spec fn spec_intern(tags: Seq<Seq<char>>, name: Seq<char>) -> (int, Seq<Seq<char>>) {
    if tags.contains(name) {
        (first_index(tags, name), tags)
    } else {
        (tags.len() as int, tags.push(name))
    }
}

/// First-write-wins insertion: a present key keeps its recorded value.
pub open spec fn insert_if_absent(m: Map<(int, int), bool>, k: (int, int), v: bool) -> Map<
    (int, int),
    bool,
> {
    if m.contains_key(k) {
        m
    } else {
        m.insert(k, v)
    }
}

pub proof fn lemma_first_index_of(tags: Seq<Seq<char>>, name: Seq<char>, i: int)
    requires
        0 <= i < tags.len(),
        tags[i] == name,
        forall|k: int| 0 <= k < i ==> tags[k] != name,
    ensures
        tags.contains(name),
        first_index(tags, name) == i,
    decreases i,
{
    if i > 0 {
        lemma_first_index_of(tags.drop_first(), name, i - 1);
    }
}

pub proof fn lemma_first_index_bounds(tags: Seq<Seq<char>>, name: Seq<char>)
    requires
        tags.contains(name),
    ensures
        0 <= first_index(tags, name) < tags.len(),
        tags[first_index(tags, name)] == name,
        forall|k: int| 0 <= k < first_index(tags, name) ==> tags[k] != name,
    decreases tags.len(),
{
    if tags.len() > 0 && tags[0] != name {
        let rest = tags.drop_first();
        assert(rest.contains(name)) by {
            let w = choose|w: int| 0 <= w < tags.len() && tags[w] == name;
            assert(rest[w - 1] == name);
        }
        lemma_first_index_bounds(rest, name);
        assert forall|k: int| 0 <= k < first_index(tags, name) implies tags[k] != name by {
            if k > 0 {
                assert(tags[k] == rest[k - 1]);
            }
        }
    }
}

spec fn local_key(f: LocalFact) -> (int, int) {
    (f.callable as int, f.tag as int)
}

spec fn unique_local_keys(s: Seq<LocalFact>) -> bool {
    forall|i: int, j: int| 0 <= i < j < s.len() ==> local_key(s[i]) != local_key(s[j])
}

spec fn locals_of(s: Seq<LocalFact>) -> Map<(int, int), bool>
    decreases s.len(),
{
    if s.len() == 0 {
        Map::empty()
    } else {
        locals_of(s.drop_last()).insert(local_key(s.last()), s.last().safe)
    }
}

proof fn lemma_locals_of_present(s: Seq<LocalFact>, i: int)
    requires
        unique_local_keys(s),
        0 <= i < s.len(),
    ensures
        locals_of(s).contains_key(local_key(s[i])),
        locals_of(s)[local_key(s[i])] == s[i].safe,
    decreases s.len(),
{
    if i < s.len() - 1 {
        lemma_locals_of_present(s.drop_last(), i);
    }
}

proof fn lemma_locals_of_absent(s: Seq<LocalFact>, k: (int, int))
    requires
        forall|i: int| 0 <= i < s.len() ==> local_key(s[i]) != k,
    ensures
        !locals_of(s).contains_key(k),
    decreases s.len(),
{
    if s.len() > 0 {
        lemma_locals_of_absent(s.drop_last(), k);
    }
}

/// The two-tier fact store of one analysis session.
pub struct StaticCache {
    known_tags: Vec<String>,
    local_facts: Vec<LocalFact>,
    ext_tables: Vec<ExtTable>,
}

impl View for StaticCache {
    type V = CacheModel;

    closed spec fn view(&self) -> CacheModel {
        CacheModel {
            tags: self.known_tags.deep_view(),
            locals: locals_of(self.local_facts@),
            exts: exts_of(self.ext_tables@),
        }
    }
}

spec fn ext_key(t: ExtTable) -> (Seq<char>, int) {
    (t.unit@, t.tag as int)
}

spec fn resolved_of(s: Seq<ResolvedFact>) -> Map<int, bool>
    decreases s.len(),
{
    if s.len() == 0 {
        Map::empty()
    } else {
        resolved_of(s.drop_last()).insert(s.last().symbol as int, s.last().safe)
    }
}

spec fn ext_model_of(t: ExtTable) -> ExtModel {
    ExtModel {
        default: t.default,
        exceptions: t.exceptions.deep_view().to_set(),
        resolved: resolved_of(t.resolved@),
    }
}

spec fn exts_of(s: Seq<ExtTable>) -> Map<(Seq<char>, int), ExtModel>
    decreases s.len(),
{
    if s.len() == 0 {
        Map::empty()
    } else {
        exts_of(s.drop_last()).insert(ext_key(s.last()), ext_model_of(s.last()))
    }
}

spec fn unique_ext_keys(s: Seq<ExtTable>) -> bool {
    forall|i: int, j: int| 0 <= i < j < s.len() ==> ext_key(s[i]) != ext_key(s[j])
}

spec fn unique_symbols(s: Seq<ResolvedFact>) -> bool {
    forall|i: int, j: int| 0 <= i < j < s.len() ==> s[i].symbol != s[j].symbol
}

proof fn lemma_exts_of_present(s: Seq<ExtTable>, i: int)
    requires
        unique_ext_keys(s),
        0 <= i < s.len(),
    ensures
        exts_of(s).contains_key(ext_key(s[i])),
        exts_of(s)[ext_key(s[i])] == ext_model_of(s[i]),
    decreases s.len(),
{
    if i < s.len() - 1 {
        lemma_exts_of_present(s.drop_last(), i);
    }
}

proof fn lemma_exts_of_absent(s: Seq<ExtTable>, k: (Seq<char>, int))
    requires
        forall|i: int| 0 <= i < s.len() ==> ext_key(s[i]) != k,
    ensures
        !exts_of(s).contains_key(k),
    decreases s.len(),
{
    if s.len() > 0 {
        lemma_exts_of_absent(s.drop_last(), k);
    }
}

proof fn lemma_resolved_of_present(s: Seq<ResolvedFact>, i: int)
    requires
        unique_symbols(s),
        0 <= i < s.len(),
    ensures
        resolved_of(s).contains_key(s[i].symbol as int),
        resolved_of(s)[s[i].symbol as int] == s[i].safe,
    decreases s.len(),
{
    if i < s.len() - 1 {
        lemma_resolved_of_present(s.drop_last(), i);
    }
}

proof fn lemma_resolved_of_absent(s: Seq<ResolvedFact>, k: int)
    requires
        forall|i: int| 0 <= i < s.len() ==> s[i].symbol as int != k,
    ensures
        !resolved_of(s).contains_key(k),
    decreases s.len(),
{
    if s.len() > 0 {
        lemma_resolved_of_absent(s.drop_last(), k);
    }
}

impl StaticCache {
    /// Representation invariant: registered names and stored keys are unique,
    /// so linear search agrees with the model maps.
    pub closed spec fn wf(&self) -> bool {
        &&& self.known_tags.deep_view().no_duplicates()
        &&& unique_local_keys(self.local_facts@)
        &&& unique_ext_keys(self.ext_tables@)
        &&& forall|i: int|
            0 <= i < self.ext_tables@.len() ==> unique_symbols(self.ext_tables@[i].resolved@)
    }

    /// A well-formed store has a well-formed model.
    pub proof fn lemma_wf_model(&self)
        requires
            self.wf(),
        ensures
            self@.wf(),
    {
    }

    /// Creates an empty store for a fresh analysis session.
    pub fn new() -> (c: StaticCache)
        ensures
            c.wf(),
            c@ == CacheModel::empty(),
    {
        let c = StaticCache { known_tags: Vec::new(), local_facts: Vec::new(), ext_tables: Vec::new() };
        proof {
            assert(c@ =~= CacheModel::empty());
        }
        c
    }

    /// Returns the handle of `tag_name`, interning the name if it is new.
    /// Interning is the only mutation of the registry, and it only appends.
    pub fn get_tag_or_add(&mut self, tag_name: &String) -> (t: Tag)
        requires
            old(self).wf(),
        ensures
            final(self).wf(),
            t.idx() == spec_intern(old(self)@.tags, tag_name@).0,
            final(self)@.tags == spec_intern(old(self)@.tags, tag_name@).1,
            final(self)@.locals == old(self)@.locals,
            final(self)@.exts == old(self)@.exts,
            0 <= t.idx() < final(self)@.tags.len(),
            final(self)@.tags[t.idx()] == tag_name@,
    {
        let n = self.known_tags.len();
        let mut i: usize = 0;
        while i < n
            invariant
                n == self.known_tags.len(),
                0 <= i <= n,
                forall|k: int| 0 <= k < i ==> self.known_tags.deep_view()[k] != tag_name@,
                self == old(self),
                old(self).wf(),
            decreases n - i,
        {
            if self.known_tags[i] == *tag_name {
                proof {
                    lemma_first_index_of(self.known_tags.deep_view(), tag_name@, i as int);
                }
                return Tag(i);
            }
            i = i + 1;
        }
        proof {
            assert(!self.known_tags.deep_view().contains(tag_name@));
        }
        self.known_tags.push(tag_name.clone());
        proof {
            assert(self.known_tags.deep_view() =~= old(self).known_tags.deep_view().push(
                tag_name@,
            ));
        }
        Tag(n)
    }

    /// Records an explicit local fact.  First write wins: a later call for a
    /// key that is already present is ignored, which is how conflicting
    /// declarations resolve (the caller's processing order decides).
    pub fn mark(&mut self, id: usize, tag: Tag, is_safe: bool)
        requires
            old(self).wf(),
        ensures
            final(self).wf(),
            final(self)@.tags == old(self)@.tags,
            final(self)@.exts == old(self)@.exts,
            final(self)@.locals == insert_if_absent(
                old(self)@.locals,
                (id as int, tag.idx()),
                is_safe,
            ),
    {
        let n = self.local_facts.len();
        let mut i: usize = 0;
        while i < n
            invariant
                n == self.local_facts.len(),
                0 <= i <= n,
                forall|k: int|
                    0 <= k < i ==> local_key(self.local_facts@[k]) != (id as int, tag.idx()),
                old(self).wf(),
                self == old(self),
                tag.idx() == tag.0 as int,
            decreases n - i,
        {
            let f_callable = self.local_facts[i].callable;
            let f_tag = self.local_facts[i].tag;
            if f_callable == id && f_tag == tag.0 {
                proof {
                    lemma_locals_of_present(self.local_facts@, i as int);
                }
                return ;
            }
            i = i + 1;
        }
        proof {
            lemma_locals_of_absent(self.local_facts@, (id as int, tag.idx()));
        }
        self.local_facts.push(LocalFact { callable: id, tag: tag.0, safe: is_safe });
        proof {
            assert(self.local_facts@.drop_last() =~= old(self).local_facts@);
            assert(self@.exts =~= old(self)@.exts);
            assert(self@.tags =~= old(self)@.tags);
        }
    }

    /// Pure lookup in the local tier.
    pub fn get_local(&self, id: usize, tag: Tag) -> (r: Option<bool>)
        requires
            self.wf(),
        ensures
            r == if self@.locals.contains_key((id as int, tag.idx())) {
                Some(self@.locals[(id as int, tag.idx())])
            } else {
                None
            },
    {
        let n = self.local_facts.len();
        let mut i: usize = 0;
        while i < n
            invariant
                n == self.local_facts.len(),
                0 <= i <= n,
                forall|k: int|
                    0 <= k < i ==> local_key(self.local_facts@[k]) != (id as int, tag.idx()),
                self.wf(),
                tag.idx() == tag.0 as int,
            decreases n - i,
        {
            let f_callable = self.local_facts[i].callable;
            let f_tag = self.local_facts[i].tag;
            if f_callable == id && f_tag == tag.0 {
                proof {
                    lemma_locals_of_present(self.local_facts@, i as int);
                }
                return Some(self.local_facts[i].safe);
            }
            i = i + 1;
        }
        proof {
            lemma_locals_of_absent(self.local_facts@, (id as int, tag.idx()));
        }
        None
    }
}

/// The default verdict read from the first line of an override list, if that
/// line (after trimming) is exactly `true` or `false`.
pub open spec fn header_value(line: Seq<char>) -> Option<bool> {
    if trim_spec(line) == "true"@ {
        Some(true)
    } else if trim_spec(line) == "false"@ {
        Some(false)
    } else {
        None
    }
}

/// The exception set read from an override list: every line after the first,
/// trimmed.  A blank line becomes the empty-string entry; it is not special.
pub open spec fn exception_set(lines: Seq<Seq<char>>) -> Set<Seq<char>> {
    lines.subrange(1, lines.len() as int).map_values(|l: Seq<char>| trim_spec(l)).to_set()
}

/// What resolving one external symbol returns and how it changes the store:
/// `None` when no table is registered for the unit and tag; otherwise the
/// memoized verdict, or `default XOR (qualified name is an exception)`,
/// memoized under the symbol on first resolution.
pub open spec fn spec_get_extern(
    m: CacheModel,
    unit: Seq<char>,
    symbol: int,
    qname: Seq<char>,
    t: int,
) -> (Option<bool>, CacheModel) {
    if !m.exts.contains_key((unit, t)) {
        (None, m)
    } else {
        let tab = m.exts[(unit, t)];
        if tab.resolved.contains_key(symbol) {
            (Some(tab.resolved[symbol]), m)
        } else {
            let v = if tab.exceptions.contains(qname) {
                !tab.default
            } else {
                tab.default
            };
            let tab2 = ExtModel {
                default: tab.default,
                exceptions: tab.exceptions,
                resolved: tab.resolved.insert(symbol, v),
            };
            (Some(v), CacheModel { tags: m.tags, locals: m.locals, exts: m.exts.insert((unit, t), tab2) })
        }
    }
}

proof fn lemma_exts_of_update(s: Seq<ExtTable>, i: int, t: ExtTable)
    requires
        unique_ext_keys(s),
        0 <= i < s.len(),
        ext_key(t) == ext_key(s[i]),
    ensures
        exts_of(s.update(i, t)) == exts_of(s).insert(ext_key(t), ext_model_of(t)),
    decreases s.len(),
{
    if i == s.len() - 1 {
        assert(s.update(i, t).drop_last() =~= s.drop_last());
        assert(exts_of(s.update(i, t)) =~= exts_of(s).insert(ext_key(t), ext_model_of(t)));
    } else {
        lemma_exts_of_update(s.drop_last(), i, t);
        assert(s.update(i, t).drop_last() =~= s.drop_last().update(i, t));
        assert(s.update(i, t).last() == s.last());
        assert(ext_key(s[i]) != ext_key(s.last()));
        assert(exts_of(s.update(i, t)) =~= exts_of(s).insert(ext_key(t), ext_model_of(t)));
    }
}

impl StaticCache {
    /// Registers the override table parsed from `lines` for the pair of
    /// dependency unit `crate_name` and tag `tag`.  The first line must be
    /// exactly `true` or `false` (the table's default verdict); each later
    /// line, trimmed, is one exception name.  A table already registered for
    /// the key is kept: the first registration wins.
    pub fn load_crate(&mut self, crate_name: &String, tag: Tag, lines: &Vec<String>) -> (r: Result<
        (),
        LoadError,
    >)
        requires
            old(self).wf(),
        ensures
            final(self).wf(),
            ({
                let lv = lines.deep_view();
                if lv.len() == 0 || header_value(lv[0]) is None {
                    r == Err::<(), LoadError>(LoadError::Format) && final(self)@ == old(self)@
                } else if old(self)@.exts.contains_key((crate_name@, tag.idx())) {
                    r == Ok::<(), LoadError>(()) && final(self)@ == old(self)@
                } else {
                    r == Ok::<(), LoadError>(()) && final(self)@.tags == old(self)@.tags
                        && final(self)@.locals == old(self)@.locals && final(self)@.exts == old(
                        self,
                    )@.exts.insert(
                        (crate_name@, tag.idx()),
                        ExtModel {
                            default: header_value(lv[0]) == Some(true),
                            exceptions: exception_set(lv),
                            resolved: Map::empty(),
                        },
                    )
                }
            }),
    {
        if lines.len() == 0 {
            return Err(LoadError::Format);
        }
        let header = trim(lines[0].as_str());
        let default: bool;
        if str_eq(header.as_str(), "true") {
            default = true;
        } else if str_eq(header.as_str(), "false") {
            default = false;
        } else {
            return Err(LoadError::Format);
        }
        let n = self.ext_tables.len();
        let mut i: usize = 0;
        while i < n
            invariant
                n == self.ext_tables.len(),
                0 <= i <= n,
                forall|k: int|
                    0 <= k < i ==> ext_key(self.ext_tables@[k]) != (crate_name@, tag.idx()),
                self == old(self),
                old(self).wf(),
                tag.idx() == tag.0 as int,
                lines@.len() > 0,
                header_value(lines.deep_view()[0]) == Some(default),
            decreases n - i,
        {
            let same_unit = self.ext_tables[i].unit == *crate_name;
            let same_tag = self.ext_tables[i].tag == tag.0;
            if same_unit && same_tag {
                proof {
                    lemma_exts_of_present(self.ext_tables@, i as int);
                    assert(ext_key(self.ext_tables@[i as int]) == (crate_name@, tag.idx()));
                    assert(old(self)@.exts.contains_key((crate_name@, tag.idx())));
                }
                return Ok(());
            }
            i = i + 1;
        }
        proof {
            lemma_exts_of_absent(self.ext_tables@, (crate_name@, tag.idx()));
        }
        let mut exceptions: Vec<String> = Vec::new();
        let mut j: usize = 1;
        while j < lines.len()
            invariant
                1 <= j <= lines.len(),
                exceptions.deep_view() == lines.deep_view().subrange(1, j as int).map_values(
                    |l: Seq<char>| trim_spec(l),
                ),
            decreases lines.len() - j,
        {
            let entry = trim(lines[j].as_str());
            exceptions.push(entry);
            proof {
                let lv = lines.deep_view();
                assert(lv[j as int] == lines@[j as int]@);
                assert(lv.subrange(1, j + 1) =~= lv.subrange(1, j as int).push(lv[j as int]));
                assert(exceptions.deep_view() =~= lv.subrange(1, j as int).map_values(
                    |l: Seq<char>| trim_spec(l),
                ).push(trim_spec(lv[j as int])));
                assert(lv.subrange(1, j as int).map_values(|l: Seq<char>| trim_spec(l)).push(
                    trim_spec(lv[j as int]),
                ) =~= lv.subrange(1, j + 1).map_values(|l: Seq<char>| trim_spec(l)));
            }
            j = j + 1;
        }
        let table = ExtTable {
            unit: crate_name.clone(),
            tag: tag.0,
            default,
            exceptions,
            resolved: Vec::new(),
        };
        self.ext_tables.push(table);
        proof {
            assert(self.ext_tables@.drop_last() =~= old(self).ext_tables@);
            assert(exts_of(self.ext_tables@) =~= old(self)@.exts.insert(
                (crate_name@, tag.idx()),
                ExtModel {
                    default: default,
                    exceptions: exception_set(lines.deep_view()),
                    resolved: Map::empty(),
                },
            )) by {
                assert(resolved_of(self.ext_tables@.last().resolved@) =~= Map::<int, bool>::empty());
                assert(self.ext_tables@.last().exceptions.deep_view().to_set() =~= exception_set(
                    lines.deep_view(),
                ));
            }
        }
        Ok(())
    }

    /// Looks up one external symbol: `None` when no table is registered for
    /// the unit and tag (the caller decides the fail-open policy), otherwise
    /// the table's verdict for the symbol's fully-qualified name, memoized
    /// under the symbol.
    pub fn get_extern(
        &mut self,
        crate_name: &String,
        symbol: usize,
        qualified_name: &String,
        tag: Tag,
    ) -> (r: Option<bool>)
        requires
            old(self).wf(),
        ensures
            final(self).wf(),
            ({
                let (rr, m2) = spec_get_extern(
                    old(self)@,
                    crate_name@,
                    symbol as int,
                    qualified_name@,
                    tag.idx(),
                );
                r == rr && final(self)@ == m2
            }),
    {
        let n = self.ext_tables.len();
        let mut i: usize = 0;
        while i < n
            invariant
                n == self.ext_tables.len(),
                0 <= i <= n,
                forall|k: int|
                    0 <= k < i ==> ext_key(self.ext_tables@[k]) != (crate_name@, tag.idx()),
                self == old(self),
                old(self).wf(),
                tag.idx() == tag.0 as int,
            decreases n - i,
        {
            let same_unit = self.ext_tables[i].unit == *crate_name;
            let same_tag = self.ext_tables[i].tag == tag.0;
            if same_unit && same_tag {
                proof {
                    lemma_exts_of_present(self.ext_tables@, i as int);
                }
                let m = self.ext_tables[i].resolved.len();
                let mut k: usize = 0;
                while k < m
                    invariant
                        0 <= i < self.ext_tables@.len(),
                        m == self.ext_tables@[i as int].resolved.len(),
                        0 <= k <= m,
                        forall|w: int|
                            0 <= w < k ==> self.ext_tables@[i as int].resolved@[w].symbol != symbol,
                        self == old(self),
                        old(self).wf(),
                        tag.idx() == tag.0 as int,
                        ext_key(self.ext_tables@[i as int]) == (crate_name@, tag.idx()),
                    decreases m - k,
                {
                    if self.ext_tables[i].resolved[k].symbol == symbol {
                        proof {
                            lemma_exts_of_present(self.ext_tables@, i as int);
                            assert(unique_symbols(self.ext_tables@[i as int].resolved@));
                            lemma_resolved_of_present(
                                self.ext_tables@[i as int].resolved@,
                                k as int,
                            );
                            assert(ext_key(self.ext_tables@[i as int]) == (
                                crate_name@,
                                tag.idx(),
                            ));
                            assert(self@.exts[(crate_name@, tag.idx())] == ext_model_of(
                                self.ext_tables@[i as int],
                            ));
                            assert(ext_model_of(self.ext_tables@[i as int]).resolved.contains_key(
                                symbol as int,
                            ));
                        }
                        return Some(self.ext_tables[i].resolved[k].safe);
                    }
                    k = k + 1;
                }
                proof {
                    lemma_resolved_of_absent(self.ext_tables@[i as int].resolved@, symbol as int);
                }
                let elen = self.ext_tables[i].exceptions.len();
                let mut is_exception = false;
                let mut e: usize = 0;
                while e < elen
                    invariant
                        0 <= i < self.ext_tables@.len(),
                        elen == self.ext_tables@[i as int].exceptions.len(),
                        0 <= e <= elen,
                        is_exception == exists|w: int|
                            0 <= w < e && self.ext_tables@[i as int].exceptions.deep_view()[w]
                                == qualified_name@,
                        self == old(self),
                        old(self).wf(),
                        tag.idx() == tag.0 as int,
                        ext_key(self.ext_tables@[i as int]) == (crate_name@, tag.idx()),
                        !ext_model_of(self.ext_tables@[i as int]).resolved.contains_key(
                            symbol as int,
                        ),
                    decreases elen - e,
                {
                    let hit = self.ext_tables[i].exceptions[e] == *qualified_name;
                    if hit {
                        is_exception = true;
                    }
                    proof {
                        let ex = self.ext_tables@[i as int].exceptions.deep_view();
                        assert(ex[e as int] == self.ext_tables@[i as int].exceptions@[e as int]@);
                        if hit {
                            assert(ex[e as int] == qualified_name@);
                        } else {
                            assert(ex[e as int] != qualified_name@);
                        }
                    }
                    e = e + 1;
                }
                proof {
                    lemma_exts_of_present(self.ext_tables@, i as int);
                    let ex = self.ext_tables@[i as int].exceptions.deep_view();
                    assert(is_exception == ex.to_set().contains(qualified_name@)) by {
                        if is_exception {
                            let w = choose|w: int|
                                0 <= w < elen && ex[w] == qualified_name@;
                            assert(ex.contains(qualified_name@));
                        } else {
                            if ex.contains(qualified_name@) {
                                let w = choose|w: int| 0 <= w < ex.len() && ex[w] == qualified_name@;
                                assert(false);
                            }
                        }
                    }
                }
                let v = if is_exception {
                    !self.ext_tables[i].default
                } else {
                    self.ext_tables[i].default
                };
                let ghost old_tables = self.ext_tables@;
                self.ext_tables[i].resolved.push(ResolvedFact { symbol, safe: v });
                proof {
                    let t2 = self.ext_tables@[i as int];
                    assert(t2.resolved@.drop_last() =~= old_tables[i as int].resolved@);
                    assert(self.ext_tables@ =~= old_tables.update(i as int, t2));
                    lemma_exts_of_update(old_tables, i as int, t2);
                    assert(resolved_of(t2.resolved@) =~= resolved_of(
                        old_tables[i as int].resolved@,
                    ).insert(symbol as int, v));
                    assert(self@ =~= spec_get_extern(
                        old(self)@,
                        crate_name@,
                        symbol as int,
                        qualified_name@,
                        tag.idx(),
                    ).1);
                }
                return Some(v);
            }
            i = i + 1;
        }
        proof {
            lemma_exts_of_absent(self.ext_tables@, (crate_name@, tag.idx()));
        }
        None
    }
}

} // verus!
