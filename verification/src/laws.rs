//! Proved laws of the inference engine: how a store grows, what seeding
//! records, and the headline properties — determinism, idempotent caching,
//! AND-composition, explicit-annotation precedence, the external
//! default/exception rule, and the fail-open cycle policy.

use crate::check::lemma_stack_push;
use crate::check::safe_names;
use crate::check::seed_one;
use crate::check::sites_ok;
use crate::check::spec_check_edges;
use crate::check::spec_is_safe;
use crate::check::spec_seed;
use crate::check::spec_seed_names;
use crate::check::stack_ok;
use crate::check::unsafe_names;
use crate::database::first_index;
use crate::database::insert_if_absent;
use crate::database::lemma_first_index_bounds;
use crate::database::lemma_first_index_of;
use crate::database::spec_get_extern;
use crate::database::spec_intern;
use crate::database::CacheModel;
use crate::program::spec_sites;
use crate::program::valid_target;
use crate::program::wf_body;
use crate::program::CallSite;
use crate::program::CallableId;
use crate::program::Program;
use vstd::prelude::*;

verus! {

/// How inference grows a store: the registry is only appended, recorded
/// local facts are never overwritten, override tables are neither added nor
/// dropped nor altered, and memoized resolutions only accumulate.
pub open spec fn cache_le(m1: CacheModel, m2: CacheModel) -> bool {
    &&& m1.tags.is_prefix_of(m2.tags)
    &&& m1.locals.submap_of(m2.locals)
    &&& m1.exts.dom() == m2.exts.dom()
    &&& forall|k: (Seq<char>, int)| #[trigger]
        m1.exts.contains_key(k) ==> m2.exts[k].default == m1.exts[k].default
            && m2.exts[k].exceptions == m1.exts[k].exceptions
            && m1.exts[k].resolved.submap_of(m2.exts[k].resolved)
}

pub proof fn lemma_cache_le_refl(m: CacheModel)
    ensures
        cache_le(m, m),
{
    assert(m.tags =~= m.tags.subrange(0, m.tags.len() as int));
}

pub proof fn lemma_cache_le_trans(m1: CacheModel, m2: CacheModel, m3: CacheModel)
    requires
        cache_le(m1, m2),
        cache_le(m2, m3),
    ensures
        cache_le(m1, m3),
{
    assert(m1.tags =~= m3.tags.subrange(0, m1.tags.len() as int)) by {
        assert forall|i: int| 0 <= i < m1.tags.len() implies m1.tags[i] == m3.tags.subrange(
            0,
            m1.tags.len() as int,
        )[i] by {
            assert(m1.tags[i] == m2.tags.subrange(0, m1.tags.len() as int)[i]);
            assert(m2.tags[i] == m3.tags.subrange(0, m2.tags.len() as int)[i]);
        }
    }
    assert forall|k: (int, int)| #[trigger] m1.locals.dom().contains(k) implies m3.locals.dom().contains(
        k,
    ) && m1.locals[k] == m3.locals[k] by {
        assert(m2.locals.dom().contains(k));
    }
    assert forall|k: (Seq<char>, int)| #[trigger] m1.exts.contains_key(k) implies m3.exts[k].default
        == m1.exts[k].default && m3.exts[k].exceptions == m1.exts[k].exceptions
        && m1.exts[k].resolved.submap_of(m3.exts[k].resolved) by {
        assert(m2.exts.contains_key(k));
        let t3 = m3.exts[k];
        assert forall|s: int| #[trigger] m1.exts[k].resolved.dom().contains(s) implies
            t3.resolved.dom().contains(s) && m1.exts[k].resolved[s] == t3.resolved[s] by {
            assert(m2.exts[k].resolved.dom().contains(s));
            assert(m3.exts[k].resolved.dom().contains(s));
        }
    }
}

/// Distinct names registered in a registry have distinct handles.
pub proof fn lemma_first_index_injective(tags: Seq<Seq<char>>, a: Seq<char>, b: Seq<char>)
    requires
        tags.contains(a),
        tags.contains(b),
        a != b,
    ensures
        first_index(tags, a) != first_index(tags, b),
{
    lemma_first_index_bounds(tags, a);
    lemma_first_index_bounds(tags, b);
}

/// A name's handle does not move when the registry is extended.
pub proof fn lemma_first_index_prefix(t1: Seq<Seq<char>>, t2: Seq<Seq<char>>, name: Seq<char>)
    requires
        t1.is_prefix_of(t2),
        t1.contains(name),
    ensures
        t2.contains(name),
        first_index(t2, name) == first_index(t1, name),
{
    lemma_first_index_bounds(t1, name);
    let fi = first_index(t1, name);
    assert forall|k: int| 0 <= k < fi implies t2[k] != name by {
        assert(t1[k] == t2.subrange(0, t1.len() as int)[k]);
    }
    assert(t2[fi] == t2.subrange(0, t1.len() as int)[fi]);
    lemma_first_index_of(t2, name, fi);
}

/// Interning keeps the registry duplicate-free, only appends, and hands out
/// the name's (now defined) first position.
pub proof fn lemma_intern_grows(tags: Seq<Seq<char>>, name: Seq<char>)
    requires
        tags.no_duplicates(),
    ensures
        spec_intern(tags, name).1.no_duplicates(),
        tags.is_prefix_of(spec_intern(tags, name).1),
        spec_intern(tags, name).1.contains(name),
        spec_intern(tags, name).0 == first_index(spec_intern(tags, name).1, name),
{
    if tags.contains(name) {
        assert(tags =~= tags.subrange(0, tags.len() as int));
    } else {
        let t2 = tags.push(name);
        assert forall|i: int, j: int| 0 <= i < j < t2.len() implies t2[i] != t2[j] by {
            if j == tags.len() {
                if t2[i] == name {
                    assert(tags.contains(name));
                }
            }
        }
        assert(tags =~= t2.subrange(0, tags.len() as int));
        assert(t2[tags.len() as int] == name);
        assert(t2.contains(name));
        assert forall|k: int| 0 <= k < tags.len() implies t2[k] != name by {
            if t2[k] == name {
                assert(tags.contains(name));
            }
        }
        lemma_first_index_of(t2, name, tags.len() as int);
    }
}

/// Seeding a list of names only appends to the registry, only adds facts for
/// the seeded callable, and leaves the external tier untouched.
pub proof fn lemma_seed_names_grows(m: CacheModel, c: int, names: Seq<Seq<char>>, v: bool)
    requires
        m.wf(),
    ensures
        spec_seed_names(m, c, names, v).wf(),
        cache_le(m, spec_seed_names(m, c, names, v)),
        spec_seed_names(m, c, names, v).exts == m.exts,
        forall|k: (int, int)| #[trigger]
            spec_seed_names(m, c, names, v).locals.contains_key(k) ==> m.locals.contains_key(k)
                || k.0 == c,
    decreases names.len(),
{
    if names.len() == 0 {
        lemma_cache_le_refl(m);
    } else {
        let m1 = seed_one(m, c, names[0], v);
        lemma_intern_grows(m.tags, names[0]);
        assert(cache_le(m, m1));
        lemma_seed_names_grows(m1, c, names.drop_first(), v);
        lemma_cache_le_trans(m, m1, spec_seed_names(m1, c, names.drop_first(), v));
    }
}

/// What a seeding pass records: afterwards every listed name is interned and
/// its fact for `c` is present; a fact that was absent beforehand now holds
/// the seeded value; and no other key was touched.
pub proof fn lemma_seed_names_records(m: CacheModel, c: int, names: Seq<Seq<char>>, v: bool)
    requires
        m.wf(),
    ensures
        ({
            let m2 = spec_seed_names(m, c, names, v);
            &&& forall|i: int|
                0 <= i < names.len() ==> m2.tags.contains(#[trigger] names[i])
                    && m2.locals.contains_key((c, first_index(m2.tags, names[i])))
            &&& forall|i: int|
                0 <= i < names.len() && !m.locals.contains_key(
                    (c, first_index(m2.tags, #[trigger] names[i])),
                ) ==> m2.locals[(c, first_index(m2.tags, names[i]))] == v
            &&& forall|k: (int, int)| #[trigger]
                m2.locals.contains_key(k) ==> m.locals.contains_key(k) || (exists|i: int|
                    0 <= i < names.len() && k == (c, first_index(m2.tags, #[trigger] names[i])))
        }),
    decreases names.len(),
{
    let m2 = spec_seed_names(m, c, names, v);
    lemma_seed_names_grows(m, c, names, v);
    if names.len() > 0 {
        let n0 = names[0];
        let m1 = seed_one(m, c, n0, v);
        let it = spec_intern(m.tags, n0).0;
        let key0 = (c, it);
        lemma_intern_grows(m.tags, n0);
        lemma_seed_names_grows(m1, c, names.drop_first(), v);
        lemma_seed_names_records(m1, c, names.drop_first(), v);
        assert(m2 == spec_seed_names(m1, c, names.drop_first(), v));
        // The head name's handle is stable from m1 onward.
        lemma_first_index_prefix(m1.tags, m2.tags, n0);
        assert(first_index(m2.tags, n0) == it);
        assert(m1.locals.contains_key(key0));
        assert(m2.locals.contains_key(key0));
        // Clause 1: interned and recorded.
        assert forall|i: int| 0 <= i < names.len() implies m2.tags.contains(#[trigger] names[i])
            && m2.locals.contains_key((c, first_index(m2.tags, names[i]))) by {
            if i > 0 {
                assert(names.drop_first()[i - 1] == names[i]);
            }
        }
        // Clause 2: a previously absent fact now holds v.
        assert forall|i: int|
            0 <= i < names.len() && !m.locals.contains_key(
                (c, first_index(m2.tags, #[trigger] names[i])),
            ) implies m2.locals[(c, first_index(m2.tags, names[i]))] == v by {
            let ki = (c, first_index(m2.tags, names[i]));
            if i == 0 {
                assert(m1.locals[key0] == v);
            } else {
                assert(names.drop_first()[i - 1] == names[i]);
                if ki == key0 {
                    // Same handle in m2 means the same name.
                    assert(m2.tags.contains(names[i]) && m2.tags.contains(n0));
                    if names[i] != n0 {
                        lemma_first_index_injective(m2.tags, names[i], n0);
                    }
                    assert(m1.locals[key0] == v);
                } else {
                    assert(!m1.locals.contains_key(ki));
                }
            }
        }
        // Clause 3: nothing but the listed keys was added.
        assert forall|k: (int, int)| #[trigger] m2.locals.contains_key(k) implies
            m.locals.contains_key(k) || (exists|i: int|
                0 <= i < names.len() && k == (c, first_index(m2.tags, #[trigger] names[i]))) by {
            if !m.locals.contains_key(k) {
                if m1.locals.contains_key(k) {
                    assert(k == key0);
                    assert(k == (c, first_index(m2.tags, names[0])));
                } else {
                    let i = choose|i: int|
                        0 <= i < names.drop_first().len() && k == (
                            c,
                            first_index(m2.tags, names.drop_first()[i]),
                        );
                    assert(names.drop_first()[i] == names[i + 1]);
                    assert(k == (c, first_index(m2.tags, names[i + 1])));
                }
            }
        }
    }
}

/// The listed names are all interned, with a recorded fact for `c` each.
pub open spec fn names_done(m: CacheModel, c: int, names: Seq<Seq<char>>) -> bool {
    forall|i: int|
        0 <= i < names.len() ==> m.tags.contains(#[trigger] names[i]) && m.locals.contains_key(
            (c, first_index(m.tags, names[i])),
        )
}

/// Every explicit annotation of callable `c` is already reflected in the
/// store, so seeding `c` again changes nothing.
pub open spec fn seed_done(p: Program, m: CacheModel, c: int) -> bool {
    names_done(m, c, safe_names(p, c)) && names_done(m, c, unsafe_names(p, c))
}

proof fn lemma_names_done_mono(m1: CacheModel, m2: CacheModel, c: int, names: Seq<Seq<char>>)
    requires
        names_done(m1, c, names),
        cache_le(m1, m2),
    ensures
        names_done(m2, c, names),
{
    assert forall|i: int| 0 <= i < names.len() implies m2.tags.contains(#[trigger] names[i])
        && m2.locals.contains_key((c, first_index(m2.tags, names[i]))) by {
        lemma_first_index_prefix(m1.tags, m2.tags, names[i]);
    }
}

proof fn lemma_seed_names_noop(m: CacheModel, c: int, names: Seq<Seq<char>>, v: bool)
    requires
        names_done(m, c, names),
    ensures
        spec_seed_names(m, c, names, v) == m,
    decreases names.len(),
{
    if names.len() > 0 {
        assert(m.tags.contains(names[0]));
        assert(m.locals.contains_key((c, first_index(m.tags, names[0]))));
        assert(seed_one(m, c, names[0], v) == m);
        assert forall|i: int| 0 <= i < names.drop_first().len() implies m.tags.contains(
            #[trigger] names.drop_first()[i],
        ) && m.locals.contains_key((c, first_index(m.tags, names.drop_first()[i]))) by {
            assert(names.drop_first()[i] == names[i + 1]);
        }
        lemma_seed_names_noop(m, c, names.drop_first(), v);
    }
}

/// What the whole seeder leaves behind: a grown, well-formed store whose new
/// facts all belong to `c`, in which `c`'s annotations are fully recorded.
pub proof fn lemma_seed_effect(p: Program, m: CacheModel, c: int)
    requires
        m.wf(),
    ensures
        ({
            let m1 = spec_seed(p, m, c);
            &&& m1.wf()
            &&& cache_le(m, m1)
            &&& m1.exts == m.exts
            &&& seed_done(p, m1, c)
            &&& forall|k: (int, int)| #[trigger]
                m1.locals.contains_key(k) ==> m.locals.contains_key(k) || k.0 == c
        }),
{
    let sn = safe_names(p, c);
    let un = unsafe_names(p, c);
    let ms = spec_seed_names(m, c, sn, true);
    let m1 = spec_seed(p, m, c);
    lemma_seed_names_grows(m, c, sn, true);
    lemma_seed_names_records(m, c, sn, true);
    lemma_seed_names_grows(ms, c, un, false);
    lemma_seed_names_records(ms, c, un, false);
    lemma_cache_le_trans(m, ms, m1);
    assert(names_done(ms, c, sn));
    lemma_names_done_mono(ms, m1, c, sn);
    assert(names_done(m1, c, un));
}

/// Where an explicit annotation decides a fact, seeding records its value: a
/// safe declaration wins over an unsafe one for the same tag, and neither
/// overwrites a fact that was already present.
pub proof fn lemma_seed_values(p: Program, m: CacheModel, c: int, w: Seq<char>)
    requires
        m.wf(),
    ensures
        ({
            let m1 = spec_seed(p, m, c);
            let key = (c, first_index(m1.tags, w));
            &&& (safe_names(p, c).contains(w) && !m.locals.contains_key(key)
                ==> m1.locals.contains_key(key) && m1.locals[key] == true)
            &&& (!safe_names(p, c).contains(w) && unsafe_names(p, c).contains(w)
                && !m.locals.contains_key(key) ==> m1.locals.contains_key(key) && m1.locals[key]
                == false)
        }),
{
    let sn = safe_names(p, c);
    let un = unsafe_names(p, c);
    let ms = spec_seed_names(m, c, sn, true);
    let m1 = spec_seed(p, m, c);
    let key = (c, first_index(m1.tags, w));
    lemma_seed_names_grows(m, c, sn, true);
    lemma_seed_names_records(m, c, sn, true);
    lemma_seed_names_grows(ms, c, un, false);
    lemma_seed_names_records(ms, c, un, false);
    if sn.contains(w) && !m.locals.contains_key(key) {
        let i = choose|i: int| 0 <= i < sn.len() && sn[i] == w;
        assert(ms.tags.contains(w));
        lemma_first_index_prefix(ms.tags, m1.tags, w);
        let key_ms = (c, first_index(ms.tags, w));
        assert(key_ms == key);
        assert(ms.locals.contains_key(key_ms));
        assert(ms.locals[key_ms] == true);
        assert(m1.locals.contains_key(key) && m1.locals[key] == true);
    }
    if !sn.contains(w) && un.contains(w) && !m.locals.contains_key(key) {
        let i = choose|i: int| 0 <= i < un.len() && un[i] == w;
        assert(m1.tags.contains(w));
        // The safe pass cannot have created this key: its keys carry handles
        // of safe names, and a shared handle would mean a shared name.
        assert(!ms.locals.contains_key(key)) by {
            if ms.locals.contains_key(key) {
                let j = choose|j: int|
                    0 <= j < sn.len() && key == (c, first_index(ms.tags, #[trigger] sn[j]));
                assert(ms.tags.contains(sn[j]));
                lemma_first_index_prefix(ms.tags, m1.tags, sn[j]);
                assert(first_index(m1.tags, sn[j]) == first_index(m1.tags, w));
                if sn[j] != w {
                    lemma_first_index_injective(m1.tags, sn[j], w);
                }
                assert(sn.contains(w));
            }
        }
        assert(m1.locals.contains_key(key) && m1.locals[key] == false);
    }
}

/// Re-seeding a fully seeded callable is a no-op.
pub proof fn lemma_seed_noop(p: Program, m: CacheModel, c: int)
    requires
        seed_done(p, m, c),
    ensures
        spec_seed(p, m, c) == m,
{
    lemma_seed_names_noop(m, c, safe_names(p, c), true);
    lemma_seed_names_noop(m, c, unsafe_names(p, c), false);
}

/// `seed_done` survives store growth.
pub proof fn lemma_seed_done_mono(p: Program, m1: CacheModel, m2: CacheModel, c: int)
    requires
        seed_done(p, m1, c),
        cache_le(m1, m2),
    ensures
        seed_done(p, m2, c),
{
    lemma_names_done_mono(m1, m2, c, safe_names(p, c));
    lemma_names_done_mono(m1, m2, c, unsafe_names(p, c));
}

/// The invariant the engine maintains about the callables under analysis:
/// each is fully seeded and none has a recorded fact for the tag being
/// inferred (the fact is written only when its analysis completes).
pub open spec fn guard_inv(p: Program, m: CacheModel, stack: Seq<int>, t: int) -> bool {
    forall|i: int|
        0 <= i < stack.len() ==> seed_done(p, m, #[trigger] stack[i]) && !m.locals.contains_key(
            (stack[i], t),
        )
}

/// The engine only grows the store, never unsettles the callables under
/// analysis, and records the verdict of every callable it completes; a
/// callable already under analysis is answered `true` with nothing changed.
pub proof fn lemma_is_safe_frame(p: Program, m: CacheModel, stack: Seq<int>, id: CallableId, t: int)
    requires
        p.wf(),
        m.wf(),
        stack_ok(p, stack),
        valid_target(id, p.callables@.len() as int),
        guard_inv(p, m, stack, t),
    ensures
        ({
            let rm = spec_is_safe(p, m, stack, id, t);
            &&& rm.1.wf()
            &&& cache_le(m, rm.1)
            &&& guard_inv(p, rm.1, stack, t)
            &&& (match id {
                CallableId::Local(c) => {
                    &&& (!stack.contains(c as int) ==> rm.1.locals.contains_key((c as int, t))
                        && rm.1.locals[(c as int, t)] == rm.0)
                    &&& (stack.contains(c as int) ==> rm.0 == true && rm.1 == m)
                },
                CallableId::External(_) => rm.1.locals == m.locals && rm.1.tags == m.tags,
            })
        }),
    decreases p.callables@.len() - stack.len(), 0int, 0int,
{
    match id {
        CallableId::External(e) => {
            let rm0 = spec_get_extern(m, e.unit@, e.symbol as int, e.path@, t);
            let k = (e.unit@, t);
            if !m.exts.contains_key(k) {
                lemma_cache_le_refl(m);
            } else {
                let tab = m.exts[k];
                if tab.resolved.contains_key(e.symbol as int) {
                    lemma_cache_le_refl(m);
                } else {
                    let m2 = rm0.1;
                    assert(m2.exts.dom() =~= m.exts.dom());
                    assert(cache_le(m, m2));
                    assert forall|i: int| 0 <= i < stack.len() implies seed_done(
                        p,
                        m2,
                        #[trigger] stack[i],
                    ) && !m2.locals.contains_key((stack[i], t)) by {
                        lemma_seed_done_mono(p, m, m2, stack[i]);
                    }
                }
            }
        },
        CallableId::Local(c) => {
            let ci = c as int;
            let rm = spec_is_safe(p, m, stack, id, t);
            if m.locals.contains_key((ci, t)) {
                lemma_cache_le_refl(m);
                if stack.contains(ci) {
                    let i = choose|i: int| 0 <= i < stack.len() && stack[i] == ci;
                    assert(!m.locals.contains_key((ci, t)));
                }
            } else {
                let m1 = spec_seed(p, m, ci);
                lemma_seed_effect(p, m, ci);
                if stack.contains(ci) {
                    let i = choose|i: int| 0 <= i < stack.len() && stack[i] == ci;
                    assert(seed_done(p, m, ci));
                    lemma_seed_noop(p, m, ci);
                    assert(m1 == m);
                    assert(rm == (true, m));
                    lemma_cache_le_refl(m);
                } else {
                    // Seeding disturbs no callable on the stack.
                    assert(guard_inv(p, m1, stack, t)) by {
                        assert forall|i: int| 0 <= i < stack.len() implies seed_done(
                            p,
                            m1,
                            #[trigger] stack[i],
                        ) && !m1.locals.contains_key((stack[i], t)) by {
                            lemma_seed_done_mono(p, m, m1, stack[i]);
                            if m1.locals.contains_key((stack[i], t)) {
                                assert(m.locals.contains_key((stack[i], t)) || stack[i] == ci);
                            }
                        }
                    }
                    if m1.locals.contains_key((ci, t)) {
                        assert(rm == (m1.locals[(ci, t)], m1));
                    } else {
                        match p.callables@[ci].body {
                            Some(b) => {
                                let stack2 = stack.push(ci);
                                lemma_stack_push(p, stack, ci);
                                let sites = spec_sites(b);
                                assert(sites_ok(p, sites)) by {
                                    assert(wf_body(b, p.callables@.len() as int));
                                }
                                assert(guard_inv(p, m1, stack2, t)) by {
                                    assert forall|i: int| 0 <= i < stack2.len() implies seed_done(
                                        p,
                                        m1,
                                        #[trigger] stack2[i],
                                    ) && !m1.locals.contains_key((stack2[i], t)) by {
                                        if i < stack.len() {
                                            assert(stack2[i] == stack[i]);
                                        } else {
                                            assert(stack2[i] == ci);
                                        }
                                    }
                                }
                                lemma_check_edges_frame(p, m1, stack2, sites, t);
                                let rm2 = spec_check_edges(p, m1, stack2, sites, t);
                                let m3 = CacheModel {
                                    tags: rm2.1.tags,
                                    locals: insert_if_absent(rm2.1.locals, (ci, t), rm2.0),
                                    exts: rm2.1.exts,
                                };
                                // The guard kept (ci, t) unrecorded, so the
                                // final insert really records the verdict.
                                assert(stack2.contains(ci)) by {
                                    assert(stack2[stack.len() as int] == ci);
                                }
                                assert(!rm2.1.locals.contains_key((ci, t)));
                                assert(cache_le(rm2.1, m3)) by {
                                    lemma_cache_le_refl(rm2.1);
                                    assert(rm2.1.tags =~= m3.tags.subrange(
                                        0,
                                        rm2.1.tags.len() as int,
                                    ));
                                }
                                lemma_cache_le_trans(m, m1, rm2.1);
                                lemma_cache_le_trans(m, rm2.1, m3);
                                assert(guard_inv(p, m3, stack, t)) by {
                                    assert forall|i: int| 0 <= i < stack.len() implies seed_done(
                                        p,
                                        m3,
                                        #[trigger] stack[i],
                                    ) && !m3.locals.contains_key((stack[i], t)) by {
                                        assert(stack2[i] == stack[i]);
                                        assert(seed_done(p, rm2.1, stack[i]));
                                        lemma_seed_done_mono(p, rm2.1, m3, stack[i]);
                                        assert(!rm2.1.locals.contains_key((stack[i], t)));
                                        assert(stack[i] != ci);
                                    }
                                }
                            },
                            None => {
                                let m3 = CacheModel {
                                    tags: m1.tags,
                                    locals: insert_if_absent(m1.locals, (ci, t), true),
                                    exts: m1.exts,
                                };
                                assert(cache_le(m1, m3)) by {
                                    lemma_cache_le_refl(m1);
                                    assert(m1.tags =~= m3.tags.subrange(0, m1.tags.len() as int));
                                }
                                lemma_cache_le_trans(m, m1, m3);
                                assert(guard_inv(p, m3, stack, t)) by {
                                    assert forall|i: int| 0 <= i < stack.len() implies seed_done(
                                        p,
                                        m3,
                                        #[trigger] stack[i],
                                    ) && !m3.locals.contains_key((stack[i], t)) by {
                                        lemma_seed_done_mono(p, m1, m3, stack[i]);
                                        assert(stack[i] != ci);
                                    }
                                }
                            },
                        }
                    }
                }
            }
        },
    }
}

/// The edge walk grows the store and preserves the guard invariant.
pub proof fn lemma_check_edges_frame(
    p: Program,
    m: CacheModel,
    stack: Seq<int>,
    sites: Seq<CallSite>,
    t: int,
)
    requires
        p.wf(),
        m.wf(),
        stack_ok(p, stack),
        sites_ok(p, sites),
        guard_inv(p, m, stack, t),
    ensures
        ({
            let rm = spec_check_edges(p, m, stack, sites, t);
            &&& rm.1.wf()
            &&& cache_le(m, rm.1)
            &&& guard_inv(p, rm.1, stack, t)
        }),
    decreases p.callables@.len() - stack.len(), 1int, sites.len(),
{
    if sites.len() == 0 {
        lemma_cache_le_refl(m);
    } else {
        assert(valid_target(sites[0].callee, p.callables@.len() as int));
        lemma_is_safe_frame(p, m, stack, sites[0].callee, t);
        let rm0 = spec_is_safe(p, m, stack, sites[0].callee, t);
        assert(sites_ok(p, sites.drop_first())) by {
            assert forall|i: int| 0 <= i < sites.drop_first().len() implies valid_target(
                #[trigger] sites.drop_first()[i].callee,
                p.callables@.len() as int,
            ) by {
                assert(sites.drop_first()[i] == sites[i + 1]);
            }
        }
        lemma_check_edges_frame(p, rm0.1, stack, sites.drop_first(), t);
        let rm1 = spec_check_edges(p, rm0.1, stack, sites.drop_first(), t);
        lemma_cache_le_trans(m, rm0.1, rm1.1);
    }
}

/// Verdict lock-in: once the oracle has answered a query, every later store
/// of the same traversal returns the same verdict and changes nothing.
pub proof fn lemma_is_safe_stable(
    p: Program,
    m: CacheModel,
    stack: Seq<int>,
    id: CallableId,
    t: int,
    m2: CacheModel,
)
    requires
        p.wf(),
        m.wf(),
        stack_ok(p, stack),
        valid_target(id, p.callables@.len() as int),
        guard_inv(p, m, stack, t),
        cache_le(spec_is_safe(p, m, stack, id, t).1, m2),
        m2.wf(),
        guard_inv(p, m2, stack, t),
    ensures
        spec_is_safe(p, m2, stack, id, t) == (spec_is_safe(p, m, stack, id, t).0, m2),
{
    lemma_is_safe_frame(p, m, stack, id, t);
    let rm = spec_is_safe(p, m, stack, id, t);
    match id {
        CallableId::Local(c) => {
            let ci = c as int;
            if stack.contains(ci) {
                let i = choose|i: int| 0 <= i < stack.len() && stack[i] == ci;
                assert(seed_done(p, m2, ci));
                assert(!m2.locals.contains_key((ci, t)));
                lemma_seed_noop(p, m2, ci);
                assert(spec_is_safe(p, m2, stack, id, t) == (true, m2));
            } else {
                assert(rm.1.locals.contains_key((ci, t)) && rm.1.locals[(ci, t)] == rm.0);
                assert(m2.locals.contains_key((ci, t)) && m2.locals[(ci, t)] == rm.0);
                assert(spec_is_safe(p, m2, stack, id, t) == (rm.0, m2));
            }
        },
        CallableId::External(e) => {
            let k = (e.unit@, t);
            let rm0 = spec_get_extern(m, e.unit@, e.symbol as int, e.path@, t);
            if !m.exts.contains_key(k) {
                assert(!m2.exts.contains_key(k)) by {
                    assert(rm.1.exts.dom() == m.exts.dom());
                    assert(!rm.1.exts.dom().contains(k));
                }
                assert(spec_is_safe(p, m2, stack, id, t) == (true, m2));
            } else {
                let tab = m.exts[k];
                let sym = e.symbol as int;
                if tab.resolved.contains_key(sym) {
                    assert(rm.1 == m);
                    assert(m2.exts.contains_key(k)) by {
                        assert(m.exts.dom().contains(k));
                    }
                    assert(m2.exts[k].resolved.contains_key(sym) && m2.exts[k].resolved[sym]
                        == tab.resolved[sym]) by {
                        assert(tab.resolved.dom().contains(sym));
                    }
                    assert(spec_is_safe(p, m2, stack, id, t) == (tab.resolved[sym], m2));
                } else {
                    let v = if tab.exceptions.contains(e.path@) {
                        !tab.default
                    } else {
                        tab.default
                    };
                    assert(rm.1.exts.contains_key(k));
                    assert(rm.1.exts[k].resolved.contains_key(sym) && rm.1.exts[k].resolved[sym]
                        == v);
                    assert(m2.exts.contains_key(k)) by {
                        assert(rm.1.exts.dom().contains(k));
                    }
                    assert(m2.exts[k].resolved.contains_key(sym) && m2.exts[k].resolved[sym] == v)
                        by {
                        assert(rm.1.exts[k].resolved.dom().contains(sym));
                    }
                    assert(spec_is_safe(p, m2, stack, id, t) == (v, m2));
                }
            }
        },
    }
}

/// AND-composition over call edges: a walk's verdict is true exactly when
/// every edge's callee is judged safe against the store the walk left
/// behind.
pub proof fn lemma_check_edges_and(
    p: Program,
    m: CacheModel,
    stack: Seq<int>,
    sites: Seq<CallSite>,
    t: int,
)
    requires
        p.wf(),
        m.wf(),
        stack_ok(p, stack),
        sites_ok(p, sites),
        guard_inv(p, m, stack, t),
    ensures
        ({
            let rm = spec_check_edges(p, m, stack, sites, t);
            rm.0 == (forall|i: int|
                0 <= i < sites.len() ==> spec_is_safe(p, rm.1, stack, #[trigger] sites[i].callee, t).0)
        }),
    decreases sites.len(),
{
    let rm = spec_check_edges(p, m, stack, sites, t);
    if sites.len() == 0 {
    } else {
        assert(valid_target(sites[0].callee, p.callables@.len() as int));
        lemma_is_safe_frame(p, m, stack, sites[0].callee, t);
        let rm0 = spec_is_safe(p, m, stack, sites[0].callee, t);
        let rest = sites.drop_first();
        assert(sites_ok(p, rest)) by {
            assert forall|i: int| 0 <= i < rest.len() implies valid_target(
                #[trigger] rest[i].callee,
                p.callables@.len() as int,
            ) by {
                assert(rest[i] == sites[i + 1]);
            }
        }
        lemma_check_edges_frame(p, rm0.1, stack, rest, t);
        lemma_check_edges_and(p, rm0.1, stack, rest, t);
        let rm1 = spec_check_edges(p, rm0.1, stack, rest, t);
        lemma_is_safe_stable(p, m, stack, sites[0].callee, t, rm1.1);
        assert(spec_is_safe(p, rm1.1, stack, sites[0].callee, t).0 == rm0.0);
        assert(rm == ((rm0.0 && rm1.0), rm1.1));
        if rm.0 {
            assert forall|i: int| 0 <= i < sites.len() implies spec_is_safe(
                p,
                rm.1,
                stack,
                #[trigger] sites[i].callee,
                t,
            ).0 by {
                if i > 0 {
                    assert(rest[i - 1] == sites[i]);
                }
            }
        } else {
            if !rm0.0 {
                assert(!spec_is_safe(p, rm.1, stack, sites[0].callee, t).0);
            } else {
                let j = choose|j: int|
                    0 <= j < rest.len() && !spec_is_safe(p, rm1.1, stack, #[trigger] rest[j].callee, t).0;
                assert(rest[j] == sites[j + 1]);
                assert(!spec_is_safe(p, rm.1, stack, sites[j + 1].callee, t).0);
            }
        }
    }
}

/// Reporting and inference agree: the reporting pass over a body's call
/// edges leaves the same store as the oracle's conjunction over them, and
/// is silent exactly when that conjunction is true.
pub proof fn lemma_report_matches_verdict(
    p: Program,
    m: CacheModel,
    sites: Seq<CallSite>,
    t: int,
    tname: Seq<char>,
)
    requires
        sites_ok(p, sites),
    ensures
        ({
            let dm = crate::check::spec_report_edges(p, m, sites, t, tname);
            let rm = spec_check_edges(p, m, Seq::empty(), sites, t);
            dm.1 == rm.1 && (dm.0.len() == 0 <==> rm.0)
        }),
    decreases sites.len(),
{
    assert(stack_ok(p, Seq::<int>::empty()));
    if sites.len() > 0 {
        let rm0 = spec_is_safe(p, m, Seq::empty(), sites[0].callee, t);
        assert(sites_ok(p, sites.drop_first())) by {
            assert forall|i: int| 0 <= i < sites.drop_first().len() implies valid_target(
                #[trigger] sites.drop_first()[i].callee,
                p.callables@.len() as int,
            ) by {
                assert(sites.drop_first()[i] == sites[i + 1]);
            }
        }
        lemma_report_matches_verdict(p, rm0.1, sites.drop_first(), t, tname);
    }
}

/// Determinism: the oracle's verdict and its effect on the store depend on
/// nothing but the program, the store model, the guard stack and the
/// queried pair — there is no hidden state.  Two sessions whose stores
/// agree answer every query alike, so repeated independent sessions over a
/// fixed program and fixed annotations always agree.
pub proof fn lemma_is_safe_deterministic(
    p: Program,
    m1: CacheModel,
    m2: CacheModel,
    stack: Seq<int>,
    id: CallableId,
    t: int,
)
    requires
        m1 == m2,
    ensures
        spec_is_safe(p, m1, stack, id, t) == spec_is_safe(p, m2, stack, id, t),
{
}

/// Idempotent caching: once the oracle has answered for a callable that was
/// not itself under analysis, the verdict is recorded, and asking again —
/// under any guard stack — returns the recorded verdict and leaves the
/// store exactly as it was: nothing is re-derived.
pub proof fn lemma_is_safe_idempotent(
    p: Program,
    m: CacheModel,
    stack: Seq<int>,
    stack2: Seq<int>,
    c: usize,
    t: int,
)
    requires
        p.wf(),
        m.wf(),
        stack_ok(p, stack),
        stack_ok(p, stack2),
        guard_inv(p, m, stack, t),
        (c as int) < p.callables@.len(),
        !stack.contains(c as int),
    ensures
        ({
            let rm1 = spec_is_safe(p, m, stack, CallableId::Local(c), t);
            spec_is_safe(p, rm1.1, stack2, CallableId::Local(c), t) == (rm1.0, rm1.1)
        }),
{
    lemma_is_safe_frame(p, m, stack, CallableId::Local(c), t);
    let rm1 = spec_is_safe(p, m, stack, CallableId::Local(c), t);
    assert(rm1.1.locals.contains_key((c as int, t)) && rm1.1.locals[(c as int, t)] == rm1.0);
    assert(spec_is_safe(p, rm1.1, stack2, CallableId::Local(c), t) == (rm1.0, rm1.1));
}

/// Vacuous safety: a callable with no recorded or declared fact whose body
/// holds no resolved call edge is judged safe.
pub proof fn lemma_is_safe_no_edges(p: Program, m: CacheModel, stack: Seq<int>, c: usize, t: int)
    requires
        p.wf(),
        m.wf(),
        stack_ok(p, stack),
        (c as int) < p.callables@.len(),
        !m.locals.contains_key((c as int, t)),
        !spec_seed(p, m, c as int).locals.contains_key((c as int, t)),
        !stack.contains(c as int),
        p.callables@[c as int].body is Some,
        spec_sites(p.callables@[c as int].body->0).len() == 0,
    ensures
        spec_is_safe(p, m, stack, CallableId::Local(c), t).0 == true,
{
    let ci = c as int;
    let m1 = spec_seed(p, m, ci);
    lemma_stack_push(p, stack, ci);
    let sites = spec_sites(p.callables@[ci].body->0);
    assert(spec_check_edges(p, m1, stack.push(ci), sites, t) == (true, m1));
}

/// AND-composition at a callable: where the verdict comes from scanning the
/// body, it is true exactly when every call edge's callee is judged safe
/// against the store the scan left behind (still under the scan's guard
/// stack, so a recursive edge back into a callable under analysis keeps its
/// fail-open reading).
pub proof fn lemma_is_safe_and_composition(
    p: Program,
    m: CacheModel,
    stack: Seq<int>,
    c: usize,
    t: int,
)
    requires
        p.wf(),
        m.wf(),
        stack_ok(p, stack),
        guard_inv(p, m, stack, t),
        (c as int) < p.callables@.len(),
        !m.locals.contains_key((c as int, t)),
        !spec_seed(p, m, c as int).locals.contains_key((c as int, t)),
        !stack.contains(c as int),
        p.callables@[c as int].body is Some,
    ensures
        ({
            let ci = c as int;
            let sites = spec_sites(p.callables@[ci].body->0);
            let rme = spec_check_edges(p, spec_seed(p, m, ci), stack.push(ci), sites, t);
            spec_is_safe(p, m, stack, CallableId::Local(c), t).0 == (forall|i: int|
                0 <= i < sites.len() ==> spec_is_safe(
                    p,
                    rme.1,
                    stack.push(ci),
                    #[trigger] sites[i].callee,
                    t,
                ).0)
        }),
{
    let ci = c as int;
    let m1 = spec_seed(p, m, ci);
    let stack2 = stack.push(ci);
    let sites = spec_sites(p.callables@[ci].body->0);
    lemma_seed_effect(p, m, ci);
    lemma_stack_push(p, stack, ci);
    assert(sites_ok(p, sites)) by {
        assert(wf_body(p.callables@[ci].body->0, p.callables@.len() as int));
    }
    assert(guard_inv(p, m1, stack2, t)) by {
        assert forall|i: int| 0 <= i < stack2.len() implies seed_done(p, m1, #[trigger] stack2[i])
            && !m1.locals.contains_key((stack2[i], t)) by {
            if i < stack.len() {
                assert(stack2[i] == stack[i]);
                lemma_seed_done_mono(p, m, m1, stack[i]);
                if m1.locals.contains_key((stack[i], t)) {
                    assert(m.locals.contains_key((stack[i], t)) || stack[i] == ci);
                }
            } else {
                assert(stack2[i] == ci);
            }
        }
    }
    lemma_check_edges_and(p, m1, stack2, sites, t);
}

/// Explicit annotations win: with no fact recorded beforehand, a
/// declare-safe (or require-safe) annotation makes the verdict true and a
/// declare-unsafe annotation — unless a safe declaration contradicts it —
/// makes it false, whatever the callable's body holds.
pub proof fn lemma_explicit_override(p: Program, m: CacheModel, stack: Seq<int>, c: usize, w: Seq<char>)
    requires
        m.wf(),
        stack_ok(p, stack),
        (c as int) < p.callables@.len(),
        !m.locals.contains_key(
            (c as int, first_index(spec_seed(p, m, c as int).tags, w)),
        ),
    ensures
        safe_names(p, c as int).contains(w) ==> spec_is_safe(
            p,
            m,
            stack,
            CallableId::Local(c),
            first_index(spec_seed(p, m, c as int).tags, w),
        ).0 == true,
        !safe_names(p, c as int).contains(w) && unsafe_names(p, c as int).contains(w)
            ==> spec_is_safe(
            p,
            m,
            stack,
            CallableId::Local(c),
            first_index(spec_seed(p, m, c as int).tags, w),
        ).0 == false,
{
    let ci = c as int;
    let m1 = spec_seed(p, m, ci);
    let t = first_index(m1.tags, w);
    lemma_seed_values(p, m, ci, w);
}

/// The external default/exception law: with no table registered for the
/// unit and tag the verdict is the fail-open `true` and nothing changes;
/// with a table, an unmemoized symbol resolves to the table's default,
/// inverted exactly for the qualified names in the exception set; a
/// memoized symbol keeps its recorded verdict.
pub proof fn lemma_external_resolution(
    p: Program,
    m: CacheModel,
    stack: Seq<int>,
    e: crate::program::ExternalId,
    t: int,
)
    requires
        stack_ok(p, stack),
    ensures
        !m.exts.contains_key((e.unit@, t)) ==> spec_is_safe(
            p,
            m,
            stack,
            CallableId::External(e),
            t,
        ) == (true, m),
        ({
            let tab = m.exts[(e.unit@, t)];
            m.exts.contains_key((e.unit@, t)) && !tab.resolved.contains_key(e.symbol as int)
                ==> spec_is_safe(p, m, stack, CallableId::External(e), t).0 == (
            if tab.exceptions.contains(e.path@) {
                !tab.default
            } else {
                tab.default
            })
        }),
        ({
            let tab = m.exts[(e.unit@, t)];
            m.exts.contains_key((e.unit@, t)) && tab.resolved.contains_key(e.symbol as int)
                ==> spec_is_safe(p, m, stack, CallableId::External(e), t) == (
            tab.resolved[e.symbol as int], m)
        }),
{
}

/// The cycle policy: a callable already under analysis is assumed safe, and
/// no tentative fact is recorded — the store comes back untouched.  (That
/// every analysis terminates at all is guaranteed by the decreasing measure
/// of the engine itself: the guard stack can only grow to the number of
/// callables.)
pub proof fn lemma_cycle_fail_open(p: Program, m: CacheModel, stack: Seq<int>, c: usize, t: int)
    requires
        p.wf(),
        m.wf(),
        stack_ok(p, stack),
        guard_inv(p, m, stack, t),
        (c as int) < p.callables@.len(),
        stack.contains(c as int),
    ensures
        spec_is_safe(p, m, stack, CallableId::Local(c), t) == (true, m),
{
    lemma_is_safe_frame(p, m, stack, CallableId::Local(c), t);
}

} // verus!
