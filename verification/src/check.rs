//! The inference engine and the reporting pass.
//!
//! `Pass::method_is_safe` is the recursive oracle: is this callable safe for
//! this tag?  It consults the fact store, seeds a callable's explicit
//! annotations on first contact, breaks call-graph cycles by assuming safety
//! (a deliberate, documented fail-open policy), and otherwise takes the
//! conjunction of its callees' verdicts, caching every completed verdict.
//!
//! `Pass::check_fn` is the per-callable entry point the host drives: it
//! records the callable's declared facts and, for every tag the callable
//! requires safety for, reports each call site whose callee is unsafe.
//!
//! Every operation is mirrored by a spec-level interpreter over the store
//! model, so each verdict is provably a function of the program, the store
//! and the traversal stack alone.

use crate::database::insert_if_absent;
use crate::database::spec_get_extern;
use crate::database::spec_intern;
use crate::database::CacheModel;
use crate::database::StaticCache;
use crate::database::Tag;
use crate::program::spec_sites;
use crate::program::valid_target;
use crate::program::Attribute;
use crate::program::CallSite;
use crate::program::CallableId;
use crate::program::MetaArg;
use crate::program::Program;
use vstd::prelude::*;
use vstd::string::StringExecFns;
use vstd::set_lib::lemma_int_range;
use vstd::set_lib::lemma_len_subset;
use vstd::set_lib::set_int_range;

verus! {

/// The bare-identifier tags of one annotation, when it has `name` and its
/// argument is a list; items of any other shape are skipped.
pub open spec fn spec_attr_tags(a: Attribute, name: Seq<char>) -> Seq<Seq<char>> {
    if a.name@ == name && a.args is Some {
        spec_arg_words(a.args->0@)
    } else {
        Seq::empty()
    }
}

/// The bare identifiers among a list of annotation arguments, in order.
pub open spec fn spec_arg_words(args: Seq<MetaArg>) -> Seq<Seq<char>>
    decreases args.len(),
{
    if args.len() == 0 {
        Seq::empty()
    } else {
        let head = match args[0] {
            MetaArg::Word(w) => seq![w@],
            _ => Seq::empty(),
        };
        head + spec_arg_words(args.drop_first())
    }
}

/// All tags named by annotations called `name` in `attrs`, in order.
pub open spec fn spec_get_tags(attrs: Seq<Attribute>, name: Seq<char>) -> Seq<Seq<char>>
    decreases attrs.len(),
{
    if attrs.len() == 0 {
        Seq::empty()
    } else {
        spec_attr_tags(attrs[0], name) + spec_get_tags(attrs.drop_first(), name)
    }
}

pub(crate) proof fn lemma_arg_words_snoc(args: Seq<MetaArg>)
    requires
        args.len() > 0,
    ensures
        spec_arg_words(args) == spec_arg_words(args.drop_last()) + (match args.last() {
            MetaArg::Word(w) => seq![w@],
            _ => Seq::empty(),
        }),
    decreases args.len(),
{
    if args.len() == 1 {
        assert(args.drop_last() =~= Seq::empty());
        assert(args.drop_first() =~= Seq::empty());
        assert(spec_arg_words(args) =~= spec_arg_words(args.drop_last()) + (match args.last() {
            MetaArg::Word(w) => seq![w@],
            _ => Seq::empty(),
        }));
    } else {
        lemma_arg_words_snoc(args.drop_first());
        assert(args.drop_first().drop_last() =~= args.drop_last().drop_first());
        assert(args.drop_last()[0] == args[0]);
        assert(args.drop_first().last() == args.last());
        assert(spec_arg_words(args) =~= spec_arg_words(args.drop_last()) + (match args.last() {
            MetaArg::Word(w) => seq![w@],
            _ => Seq::empty(),
        }));
    }
}

proof fn lemma_get_tags_snoc(attrs: Seq<Attribute>, name: Seq<char>)
    requires
        attrs.len() > 0,
    ensures
        spec_get_tags(attrs, name) == spec_get_tags(attrs.drop_last(), name) + spec_attr_tags(
            attrs.last(),
            name,
        ),
    decreases attrs.len(),
{
    if attrs.len() == 1 {
        assert(attrs.drop_last() =~= Seq::empty());
        assert(attrs.drop_first() =~= Seq::empty());
        assert(spec_get_tags(attrs, name) =~= spec_get_tags(attrs.drop_last(), name)
            + spec_attr_tags(attrs.last(), name));
    } else {
        lemma_get_tags_snoc(attrs.drop_first(), name);
        assert(attrs.drop_first().drop_last() =~= attrs.drop_last().drop_first());
        assert(attrs.drop_last()[0] == attrs[0]);
        assert(attrs.drop_first().last() == attrs.last());
        assert(spec_get_tags(attrs, name) =~= spec_get_tags(attrs.drop_last(), name)
            + spec_attr_tags(attrs.last(), name));
    }
}

/// Extracts the tag names given as bare identifiers inside every annotation
/// of `attrs` whose name is `attr_name`.  A non-list annotation and a list
/// item that is not a bare identifier are malformed: they are skipped, and
/// the remaining items are still processed.
pub fn get_tags(attrs: &Vec<Attribute>, attr_name: &str) -> (tags: Vec<String>)
    ensures
        tags.deep_view() == spec_get_tags(attrs@, attr_name@),
{
    let mut tags: Vec<String> = Vec::new();
    let n = attrs.len();
    let mut i: usize = 0;
    while i < n
        invariant
            n == attrs@.len(),
            0 <= i <= n,
            tags.deep_view() == spec_get_tags(attrs@.take(i as int), attr_name@),
        decreases n - i,
    {
        proof {
            lemma_get_tags_snoc(attrs@.take(i + 1), attr_name@);
            assert(attrs@.take(i + 1).drop_last() =~= attrs@.take(i as int));
            assert(attrs@.take(i + 1).last() == attrs@[i as int]);
        }
        let a = &attrs[i];
        if crate::text::str_eq(a.name.as_str(), attr_name) {
            match &a.args {
                Some(args) => {
                    let m = args.len();
                    let mut j: usize = 0;
                    while j < m
                        invariant
                            m == args@.len(),
                            0 <= j <= m,
                            tags.deep_view() == spec_get_tags(attrs@.take(i as int), attr_name@)
                                + spec_arg_words(args@.take(j as int)),
                        decreases m - j,
                    {
                        proof {
                            lemma_arg_words_snoc(args@.take(j + 1));
                            assert(args@.take(j + 1).drop_last() =~= args@.take(j as int));
                            assert(args@.take(j + 1).last() == args@[j as int]);
                        }
                        match &args[j] {
                            MetaArg::Word(w) => {
                                let ghost dv0 = tags.deep_view();
                                tags.push(w.clone());
                                proof {
                                    assert(args@[j as int] == MetaArg::Word(*w));
                                    assert(tags.deep_view() =~= dv0.push(w@));
                                    assert(tags.deep_view() =~= spec_get_tags(
                                        attrs@.take(i as int),
                                        attr_name@,
                                    ) + spec_arg_words(args@.take(j + 1)));
                                }
                            },
                            _ => {
                                proof {
                                    assert(spec_arg_words(args@.take(j + 1)) =~= spec_arg_words(
                                        args@.take(j as int),
                                    ));
                                }
                            },
                        }
                        j = j + 1;
                    }
                    proof {
                        assert(args@.take(m as int) =~= args@);
                        assert(spec_attr_tags(attrs@[i as int], attr_name@) == spec_arg_words(
                            args@,
                        ));
                    }
                },
                None => {
                    proof {
                        assert(spec_attr_tags(attrs@[i as int], attr_name@) =~= Seq::<
                            Seq<char>,
                        >::empty());
                        assert(tags.deep_view() =~= spec_get_tags(
                            attrs@.take(i + 1),
                            attr_name@,
                        ));
                    }
                },
            }
        } else {
            proof {
                assert(spec_attr_tags(attrs@[i as int], attr_name@) =~= Seq::<Seq<char>>::empty());
                assert(tags.deep_view() =~= spec_get_tags(attrs@.take(i + 1), attr_name@));
            }
        }
        proof {
            assert(tags.deep_view() =~= spec_get_tags(attrs@.take(i + 1), attr_name@));
        }
        i = i + 1;
    }
    proof {
        assert(attrs@.take(n as int) =~= attrs@);
    }
    tags
}

/// One seeding step: intern `name` and record the fact `(c, name) = value`
/// unless one is already recorded.
pub open spec fn seed_one(m: CacheModel, c: int, name: Seq<char>, value: bool) -> CacheModel {
    let t = spec_intern(m.tags, name).0;
    let tags2 = spec_intern(m.tags, name).1;
    CacheModel { tags: tags2, locals: insert_if_absent(m.locals, (c, t), value), exts: m.exts }
}

/// Seeds the named facts for callable `c`, left to right.
pub open spec fn spec_seed_names(m: CacheModel, c: int, names: Seq<Seq<char>>, value: bool) -> CacheModel
    decreases names.len(),
{
    if names.len() == 0 {
        m
    } else {
        spec_seed_names(seed_one(m, c, names[0], value), c, names.drop_first(), value)
    }
}

pub proof fn lemma_seed_names_snoc(m: CacheModel, c: int, names: Seq<Seq<char>>, x: Seq<char>, value: bool)
    ensures
        spec_seed_names(m, c, names.push(x), value) == seed_one(
            spec_seed_names(m, c, names, value),
            c,
            x,
            value,
        ),
    decreases names.len(),
{
    if names.len() == 0 {
        assert(names.push(x)[0] == x);
        assert(names.push(x).drop_first() =~= Seq::<Seq<char>>::empty());
        let m1 = seed_one(m, c, x, value);
        assert(spec_seed_names(m, c, names.push(x), value) == spec_seed_names(
            m1,
            c,
            names.push(x).drop_first(),
            value,
        ));
        assert(spec_seed_names(m1, c, Seq::empty(), value) == m1);
        assert(spec_seed_names(m, c, names, value) == m);
    } else {
        lemma_seed_names_snoc(seed_one(m, c, names[0], value), c, names.drop_first(), x, value);
        assert(names.push(x)[0] == names[0]);
        assert(names.push(x).drop_first() =~= names.drop_first().push(x));
        let m1 = seed_one(m, c, names[0], value);
        assert(spec_seed_names(m, c, names.push(x), value) == spec_seed_names(
            m1,
            c,
            names.drop_first().push(x),
            value,
        ));
        assert(spec_seed_names(m, c, names, value) == spec_seed_names(
            m1,
            c,
            names.drop_first(),
            value,
        ));
    }
}

/// The tag names callable `c` declares itself safe for: its `is_safe` lists
/// followed by its `req_safe` lists (requiring safety primes the callable
/// itself as safe, so a direct self-recursive call is not flagged).
pub open spec fn safe_names(p: Program, c: int) -> Seq<Seq<char>> {
    spec_get_tags(p.callables@[c].attrs@, "is_safe"@) + spec_get_tags(
        p.callables@[c].attrs@,
        "req_safe"@,
    )
}

/// The tag names callable `c` declares itself unsafe for.
pub open spec fn unsafe_names(p: Program, c: int) -> Seq<Seq<char>> {
    spec_get_tags(p.callables@[c].attrs@, "not_safe"@)
}

/// Seeding a callable's explicit annotations: the safe declarations first,
/// then the unsafe ones.  With first-write-wins facts this order is the
/// documented precedence policy: a safe declaration beats an unsafe one for
/// the same tag.
pub open spec fn spec_seed(p: Program, m: CacheModel, c: int) -> CacheModel {
    spec_seed_names(spec_seed_names(m, c, safe_names(p, c), true), c, unsafe_names(p, c), false)
}

fn seed_names(cache: &mut StaticCache, c: usize, names: &Vec<String>, value: bool)
    requires
        old(cache).wf(),
    ensures
        final(cache).wf(),
        final(cache)@ == spec_seed_names(old(cache)@, c as int, names.deep_view(), value),
{
    let n = names.len();
    let mut i: usize = 0;
    while i < n
        invariant
            n == names@.len(),
            0 <= i <= n,
            cache.wf(),
            cache@ == spec_seed_names(old(cache)@, c as int, names.deep_view().take(i as int), value),
        decreases n - i,
    {
        let t = cache.get_tag_or_add(&names[i]);
        cache.mark(c, t, value);
        proof {
            lemma_seed_names_snoc(
                old(cache)@,
                c as int,
                names.deep_view().take(i as int),
                names.deep_view()[i as int],
                value,
            );
            assert(names.deep_view().take(i + 1) =~= names.deep_view().take(i as int).push(
                names.deep_view()[i as int],
            ));
            assert(names.deep_view()[i as int] == names@[i as int]@);
        }
        i = i + 1;
    }
    proof {
        assert(names.deep_view().take(n as int) =~= names.deep_view());
    }
}

/// Runs the attribute seeder for callable `c`: every explicit annotation is
/// written into the local tier (first write wins), interning tag names as
/// needed.  Safe to run again for the same callable: re-seeding changes
/// nothing.
pub fn fill_cache_for(prog: &Program, cache: &mut StaticCache, c: usize)
    requires
        old(cache).wf(),
        (c as int) < prog.callables@.len(),
    ensures
        final(cache).wf(),
        final(cache)@ == spec_seed(*prog, old(cache)@, c as int),
{
    let attrs = &prog.callables[c].attrs;
    let mut safe_tags = get_tags(attrs, "is_safe");
    let mut req_tags = get_tags(attrs, "req_safe");
    safe_tags.append(&mut req_tags);
    let not_tags = get_tags(attrs, "not_safe");
    proof {
        assert(safe_tags.deep_view() =~= safe_names(*prog, c as int));
        assert(not_tags.deep_view() =~= unsafe_names(*prog, c as int));
    }
    seed_names(cache, c, &safe_tags, true);
    seed_names(cache, c, &not_tags, false);
}

/// A valid recursion-guard stack: distinct local callables of the program.
pub open spec fn stack_ok(p: Program, stack: Seq<int>) -> bool {
    &&& stack.no_duplicates()
    &&& forall|i: int| 0 <= i < stack.len() ==> 0 <= #[trigger] stack[i] < p.callables@.len()
}

/// Every callee of `sites` exists in the program.
pub open spec fn sites_ok(p: Program, sites: Seq<CallSite>) -> bool {
    forall|i: int|
        0 <= i < sites.len() ==> valid_target(
            #[trigger] sites[i].callee,
            p.callables@.len() as int,
        )
}

/// Distinct stack entries drawn from the program's callables cannot outnumber
/// the callables: the bound behind termination of the engine.
pub proof fn lemma_stack_bound(p: Program, stack: Seq<int>)
    requires
        stack_ok(p, stack),
    ensures
        stack.len() <= p.callables@.len(),
{
    let n = p.callables@.len() as int;
    stack.unique_seq_to_set();
    assert forall|x: int| stack.to_set().contains(x) implies set_int_range(0, n).contains(x) by {
        assert(stack.contains(x));
        let i = choose|i: int| 0 <= i < stack.len() && stack[i] == x;
        assert(0 <= stack[i] < n);
    }
    lemma_int_range(0, n);
    lemma_len_subset(stack.to_set(), set_int_range(0, n));
}

/// Pushing a fresh valid callable keeps the guard stack valid.
pub proof fn lemma_stack_push(p: Program, stack: Seq<int>, c: int)
    requires
        stack_ok(p, stack),
        !stack.contains(c),
        0 <= c < p.callables@.len(),
    ensures
        stack_ok(p, stack.push(c)),
        stack.push(c).len() <= p.callables@.len(),
{
    let s2 = stack.push(c);
    assert forall|i: int, j: int| 0 <= i < j < s2.len() implies s2[i] != s2[j] by {
        if j == stack.len() {
            assert(s2[j] == c);
            assert(s2[i] == stack[i]);
            if stack[i] == c {
                assert(stack.contains(c));
            }
        } else {
            assert(s2[i] == stack[i] && s2[j] == stack[j]);
        }
    }
    assert(s2.no_duplicates());
    assert(forall|i: int| 0 <= i < s2.len() ==> 0 <= #[trigger] s2[i] < p.callables@.len());
    lemma_stack_bound(p, s2);
}

/// The verdict of the inference oracle for one callable and tag, and the
/// store it leaves behind.  This spec-level interpreter fixes the whole
/// algorithm: external callables resolve through their unit's override table
/// (`true` when none is registered); a cached or explicitly declared local
/// fact is returned as is; a callable already under analysis is assumed safe
/// without caching (the cycle policy); otherwise the verdict is the
/// conjunction over the callable's resolved call edges, computed after
/// pushing the callable on the guard stack, and cached.
pub open spec fn spec_is_safe(
    p: Program,
    m: CacheModel,
    stack: Seq<int>,
    id: CallableId,
    t: int,
) -> (bool, CacheModel)
    decreases p.callables@.len() - stack.len(), 0int, 0int
        when stack_ok(p, stack) && valid_target(id, p.callables@.len() as int)
        via spec_is_safe_decreases
{
    match id {
        CallableId::External(e) => {
            let rm = spec_get_extern(m, e.unit@, e.symbol as int, e.path@, t);
            match rm.0 {
                Some(v) => (v, rm.1),
                None => (true, rm.1),
            }
        },
        CallableId::Local(c) => {
            let ci = c as int;
            if m.locals.contains_key((ci, t)) {
                (m.locals[(ci, t)], m)
            } else {
                let m1 = spec_seed(p, m, ci);
                if m1.locals.contains_key((ci, t)) {
                    (m1.locals[(ci, t)], m1)
                } else if stack.contains(ci) {
                    (true, m1)
                } else {
                    match p.callables@[ci].body {
                        Some(b) => {
                            let rm2 = spec_check_edges(p, m1, stack.push(ci), spec_sites(b), t);
                            (
                                rm2.0,
                                CacheModel {
                                    tags: rm2.1.tags,
                                    locals: insert_if_absent(rm2.1.locals, (ci, t), rm2.0),
                                    exts: rm2.1.exts,
                                },
                            )
                        },
                        None => (
                            true,
                            CacheModel {
                                tags: m1.tags,
                                locals: insert_if_absent(m1.locals, (ci, t), true),
                                exts: m1.exts,
                            },
                        ),
                    }
                }
            }
        },
    }
}

/// The conjunction of the oracle's verdicts over a list of call edges, the
/// store threaded left to right.  Every edge is evaluated: an unsafe edge
/// does not cut the walk short, so later callees are still cached.
pub open spec fn spec_check_edges(
    p: Program,
    m: CacheModel,
    stack: Seq<int>,
    sites: Seq<CallSite>,
    t: int,
) -> (bool, CacheModel)
    decreases p.callables@.len() - stack.len(), 1int, sites.len()
        when stack_ok(p, stack) && sites_ok(p, sites)
{
    if sites.len() == 0 {
        (true, m)
    } else {
        let rm0 = spec_is_safe(p, m, stack, sites[0].callee, t);
        let rm1 = spec_check_edges(p, rm0.1, stack, sites.drop_first(), t);
        (rm0.0 && rm1.0, rm1.1)
    }
}

#[via_fn]
proof fn spec_is_safe_decreases(p: Program, m: CacheModel, stack: Seq<int>, id: CallableId, t: int) {
    match id {
        CallableId::Local(c) => {
            let ci = c as int;
            if stack_ok(p, stack) && valid_target(id, p.callables@.len() as int) {
                if !m.locals.contains_key((ci, t)) {
                    let m1 = spec_seed(p, m, ci);
                    if !m1.locals.contains_key((ci, t)) && !stack.contains(ci) {
                        lemma_stack_push(p, stack, ci);
                    }
                }
            }
        },
        _ => {},
    }
}

pub proof fn lemma_check_edges_snoc(
    p: Program,
    m: CacheModel,
    stack: Seq<int>,
    sites: Seq<CallSite>,
    x: CallSite,
    t: int,
)
    requires
        stack_ok(p, stack),
        sites_ok(p, sites),
        valid_target(x.callee, p.callables@.len() as int),
    ensures
        spec_check_edges(p, m, stack, sites.push(x), t) == ({
            let rm0 = spec_check_edges(p, m, stack, sites, t);
            let rm1 = spec_is_safe(p, rm0.1, stack, x.callee, t);
            ((rm0.0 && rm1.0), rm1.1)
        }),
    decreases sites.len(),
{
    assert(sites_ok(p, sites.push(x))) by {
        assert forall|i: int| 0 <= i < sites.push(x).len() implies valid_target(
            #[trigger] sites.push(x)[i].callee,
            p.callables@.len() as int,
        ) by {
            if i < sites.len() {
                assert(sites.push(x)[i] == sites[i]);
            } else {
                assert(sites.push(x)[i] == x);
            }
        }
    }
    if sites.len() == 0 {
        assert(sites.push(x)[0] == x);
        assert(sites.push(x).drop_first() =~= Seq::<CallSite>::empty());
        let rmx = spec_is_safe(p, m, stack, x.callee, t);
        assert(spec_check_edges(p, rmx.1, stack, Seq::empty(), t) == (true, rmx.1));
        assert(spec_check_edges(p, m, stack, sites, t) == (true, m));
    } else {
        let rm0 = spec_is_safe(p, m, stack, sites[0].callee, t);
        assert(sites_ok(p, sites.drop_first())) by {
            assert forall|i: int| 0 <= i < sites.drop_first().len() implies valid_target(
                #[trigger] sites.drop_first()[i].callee,
                p.callables@.len() as int,
            ) by {
                assert(sites.drop_first()[i] == sites[i + 1]);
            }
        }
        lemma_check_edges_snoc(p, rm0.1, stack, sites.drop_first(), x, t);
        assert(sites.push(x)[0] == sites[0]);
        assert(sites.push(x).drop_first() =~= sites.drop_first().push(x));
    }
}

/// Model of one emitted diagnostic: where it points and what it says.
#[verifier::ext_equal]
pub ghost struct DiagModel {
    pub location: int,
    pub message: Seq<char>,
}

/// The diagnostic message reported for a call to a callee that is unsafe for
/// the named tag.
pub open spec fn spec_message(tag_name: Seq<char>) -> Seq<char> {
    "Calling "@ + tag_name + "-unsafe method from a #[req_safe("@ + tag_name + ")] method"@
}

/// A reported violation: one call site whose callee is unsafe for a tag the
/// calling function requires safety for.
pub struct Diagnostic {
    pub location: u64,
    pub message: String,
}

impl View for Diagnostic {
    type V = DiagModel;

    open spec fn view(&self) -> DiagModel {
        DiagModel { location: self.location as int, message: self.message@ }
    }
}

impl DeepView for Diagnostic {
    type V = DiagModel;

    open spec fn deep_view(&self) -> DiagModel {
        self.view()
    }
}

fn build_message(tag_name: &String) -> (r: String)
    ensures
        r@ == spec_message(tag_name@),
{
    let mut s = String::from_str("Calling ");
    s.append(tag_name.as_str());
    s.append("-unsafe method from a #[req_safe(");
    s.append(tag_name.as_str());
    s.append(")] method");
    proof {
        assert(s@ =~= spec_message(tag_name@));
    }
    s
}

/// The diagnostics of the reporting pass over a list of call edges, checking
/// each callee with an empty guard stack, and the store left behind: one
/// diagnostic at each edge whose callee's verdict is unsafe.
pub open spec fn spec_report_edges(
    p: Program,
    m: CacheModel,
    sites: Seq<CallSite>,
    t: int,
    tname: Seq<char>,
) -> (Seq<DiagModel>, CacheModel)
    decreases sites.len(),
{
    if sites.len() == 0 {
        (Seq::empty(), m)
    } else {
        let rm0 = spec_is_safe(p, m, Seq::empty(), sites[0].callee, t);
        let dm1 = spec_report_edges(p, rm0.1, sites.drop_first(), t, tname);
        let head: Seq<DiagModel> = if rm0.0 {
            Seq::empty()
        } else {
            seq![DiagModel { location: sites[0].location as int, message: spec_message(tname) }]
        };
        (head + dm1.0, dm1.1)
    }
}

/// One required-safety check of callable `c` for the tag named `tname`: the
/// tag is interned, the callable itself is primed safe for it (first write
/// wins), and every resolved call edge of its body is reported on.
pub open spec fn spec_check_tag(p: Program, m: CacheModel, c: int, tname: Seq<char>) -> (
    Seq<DiagModel>,
    CacheModel,
) {
    let t = spec_intern(m.tags, tname).0;
    let m1 = seed_one(m, c, tname, true);
    match p.callables@[c].body {
        Some(b) => spec_report_edges(p, m1, spec_sites(b), t, tname),
        None => (Seq::empty(), m1),
    }
}

/// The required-safety checks of callable `c` for a list of tag names, left
/// to right, diagnostics concatenated.
pub open spec fn spec_check_tags(p: Program, m: CacheModel, c: int, names: Seq<Seq<char>>) -> (
    Seq<DiagModel>,
    CacheModel,
)
    decreases names.len(),
{
    if names.len() == 0 {
        (Seq::empty(), m)
    } else {
        let dm1 = spec_check_tag(p, m, c, names[0]);
        let dm2 = spec_check_tags(p, dm1.1, c, names.drop_first());
        (dm1.0 + dm2.0, dm2.1)
    }
}

/// The whole per-callable hook: record the callable's declared facts, then
/// run the reporting pass for every tag it requires safety for.
pub open spec fn spec_check_fn(p: Program, m: CacheModel, c: int) -> (Seq<DiagModel>, CacheModel) {
    let attrs = p.callables@[c].attrs@;
    let m1 = spec_seed_names(m, c, spec_get_tags(attrs, "is_safe"@), true);
    let m2 = spec_seed_names(m1, c, spec_get_tags(attrs, "not_safe"@), false);
    spec_check_tags(p, m2, c, spec_get_tags(attrs, "req_safe"@))
}

proof fn lemma_report_edges_snoc(
    p: Program,
    m: CacheModel,
    sites: Seq<CallSite>,
    x: CallSite,
    t: int,
    tname: Seq<char>,
)
    ensures
        spec_report_edges(p, m, sites.push(x), t, tname) == ({
            let dm0 = spec_report_edges(p, m, sites, t, tname);
            let rm1 = spec_is_safe(p, dm0.1, Seq::empty(), x.callee, t);
            let head: Seq<DiagModel> = if rm1.0 {
                Seq::empty()
            } else {
                seq![DiagModel { location: x.location as int, message: spec_message(tname) }]
            };
            (dm0.0 + head, rm1.1)
        }),
    decreases sites.len(),
{
    if sites.len() == 0 {
        assert(sites.push(x)[0] == x);
        assert(sites.push(x).drop_first() =~= Seq::<CallSite>::empty());
        let rmx = spec_is_safe(p, m, Seq::empty(), x.callee, t);
        assert(spec_report_edges(p, rmx.1, Seq::empty(), t, tname) == (Seq::<DiagModel>::empty(), rmx.1));
        assert(spec_report_edges(p, m, sites, t, tname) == (Seq::<DiagModel>::empty(), m));
        assert(spec_report_edges(p, m, sites.push(x), t, tname).0 =~= ({
            let dm0 = spec_report_edges(p, m, sites, t, tname);
            let rm1 = spec_is_safe(p, dm0.1, Seq::empty(), x.callee, t);
            let head: Seq<DiagModel> = if rm1.0 {
                Seq::empty()
            } else {
                seq![DiagModel { location: x.location as int, message: spec_message(tname) }]
            };
            dm0.0 + head
        }));
    } else {
        let rm0 = spec_is_safe(p, m, Seq::empty(), sites[0].callee, t);
        lemma_report_edges_snoc(p, rm0.1, sites.drop_first(), x, t, tname);
        assert(sites.push(x)[0] == sites[0]);
        assert(sites.push(x).drop_first() =~= sites.drop_first().push(x));
        assert(spec_report_edges(p, m, sites.push(x), t, tname).0 =~= ({
            let dm0 = spec_report_edges(p, m, sites, t, tname);
            let rm1 = spec_is_safe(p, dm0.1, Seq::empty(), x.callee, t);
            let head: Seq<DiagModel> = if rm1.0 {
                Seq::empty()
            } else {
                seq![DiagModel { location: x.location as int, message: spec_message(tname) }]
            };
            dm0.0 + head
        }));
    }
}

proof fn lemma_check_tags_snoc(p: Program, m: CacheModel, c: int, names: Seq<Seq<char>>, x: Seq<char>)
    ensures
        spec_check_tags(p, m, c, names.push(x)) == ({
            let dm0 = spec_check_tags(p, m, c, names);
            let dm1 = spec_check_tag(p, dm0.1, c, x);
            (dm0.0 + dm1.0, dm1.1)
        }),
    decreases names.len(),
{
    if names.len() == 0 {
        assert(names.push(x)[0] == x);
        assert(names.push(x).drop_first() =~= Seq::<Seq<char>>::empty());
        let dmx = spec_check_tag(p, m, c, x);
        assert(spec_check_tags(p, dmx.1, c, Seq::empty()) == (Seq::<DiagModel>::empty(), dmx.1));
        assert(spec_check_tags(p, m, c, names) == (Seq::<DiagModel>::empty(), m));
        assert(spec_check_tags(p, m, c, names.push(x)).0 =~= ({
            let dm0 = spec_check_tags(p, m, c, names);
            let dm1 = spec_check_tag(p, dm0.1, c, x);
            dm0.0 + dm1.0
        }));
    } else {
        let dm1 = spec_check_tag(p, m, c, names[0]);
        lemma_check_tags_snoc(p, dm1.1, c, names.drop_first(), x);
        assert(names.push(x)[0] == names[0]);
        assert(names.push(x).drop_first() =~= names.drop_first().push(x));
        assert(spec_check_tags(p, m, c, names.push(x)).0 =~= ({
            let dm0 = spec_check_tags(p, m, c, names);
            let dmx = spec_check_tag(p, dm0.1, c, x);
            dm0.0 + dmx.0
        }));
    }
}

/// The analysis pass: its only state is the recursion-guard stack of the
/// traversal it is running.  One pass value must serve one traversal at a
/// time; independent traversals own independent passes and contend only on
/// the shared fact store.
pub struct Pass {
    visit_stack: Vec<usize>,
}

impl Pass {
    /// The guard stack: the local callables currently being analyzed.
    pub closed spec fn stack(&self) -> Seq<int> {
        self.visit_stack@.map_values(|x: usize| x as int)
    }

    /// A fresh pass with an empty guard stack.
    pub fn new() -> (p: Pass)
        ensures
            p.stack() == Seq::<int>::empty(),
    {
        let p = Pass { visit_stack: Vec::new() };
        proof {
            assert(p.stack() =~= Seq::<int>::empty());
        }
        p
    }

    /// The recursive oracle: is `id` safe for `tag`?  Exactly the verdict of
    /// `spec_is_safe` on the current store and guard stack, with the store
    /// advanced accordingly and the guard stack restored.
    pub fn method_is_safe(
        &mut self,
        prog: &Program,
        cache: &mut StaticCache,
        id: &CallableId,
        tag: Tag,
    ) -> (r: bool)
        requires
            prog.wf(),
            old(cache).wf(),
            stack_ok(*prog, old(self).stack()),
            valid_target(*id, prog.callables@.len() as int),
        ensures
            final(self).stack() == old(self).stack(),
            final(cache).wf(),
            r == spec_is_safe(*prog, old(cache)@, old(self).stack(), *id, tag.idx()).0,
            final(cache)@ == spec_is_safe(*prog, old(cache)@, old(self).stack(), *id, tag.idx()).1,
        decreases prog.callables@.len() - self.stack().len(),
    {
        match id {
            CallableId::External(e) => {
                match cache.get_extern(&e.unit, e.symbol, &e.path, tag) {
                    Some(v) => v,
                    None => true,
                }
            },
            CallableId::Local(c0) => {
                let c: usize = *c0;
                match cache.get_local(c, tag) {
                    Some(v) => {
                        return v;
                    },
                    None => {},
                }
                fill_cache_for(prog, cache, c);
                let ghost m1 = cache@;
                match cache.get_local(c, tag) {
                    Some(v) => {
                        return v;
                    },
                    None => {},
                }
                let mut on_stack = false;
                let sn = self.visit_stack.len();
                let mut k: usize = 0;
                while k < sn
                    invariant
                        sn == self.visit_stack@.len(),
                        0 <= k <= sn,
                        on_stack == exists|w: int| 0 <= w < k && self.visit_stack@[w] == c,
                        self == old(self),
                    decreases sn - k,
                {
                    if self.visit_stack[k] == c {
                        on_stack = true;
                        proof {
                            assert(0 <= k < sn && self.visit_stack@[k as int] == c);
                        }
                    }
                    k = k + 1;
                }
                proof {
                    if on_stack {
                        let w = choose|w: int| 0 <= w < sn && self.visit_stack@[w] == c;
                        assert(self.stack()[w] == c as int);
                        assert(self.stack().contains(c as int));
                    } else {
                        if self.stack().contains(c as int) {
                            let w = choose|w: int|
                                0 <= w < self.stack().len() && self.stack()[w] == c as int;
                            assert(self.visit_stack@[w] == c);
                            assert(false);
                        }
                    }
                }
                if on_stack {
                    return true;
                }
                match &prog.callables[c].body {
                    None => {
                        cache.mark(c, tag, true);
                        true
                    },
                    Some(b) => {
                        let sites = crate::program::scan_body(b);
                        proof {
                            assert(prog.callables@[c as int].body == Some(*b));
                            assert(crate::program::wf_body(*b, prog.callables@.len() as int));
                            assert(sites_ok(*prog, sites@));
                            lemma_stack_push(*prog, old(self).stack(), c as int);
                        }
                        self.visit_stack.push(c);
                        proof {
                            assert(self.stack() =~= old(self).stack().push(c as int));
                        }
                        let ghost stack1 = self.stack();
                        let mut all_safe = true;
                        let ns = sites.len();
                        let mut i: usize = 0;
                        while i < ns
                            invariant
                                prog.wf(),
                                cache.wf(),
                                ns == sites@.len(),
                                0 <= i <= ns,
                                self.stack() == old(self).stack().push(c as int),
                                stack1 == self.stack(),
                                stack_ok(*prog, stack1),
                                sites_ok(*prog, sites@),
                                ({
                                    let rm = spec_check_edges(
                                        *prog,
                                        m1,
                                        stack1,
                                        sites@.take(i as int),
                                        tag.idx(),
                                    );
                                    all_safe == rm.0 && cache@ == rm.1
                                }),
                            decreases ns - i,
                        {
                            proof {
                                lemma_stack_bound(*prog, self.stack());
                                assert(valid_target(
                                    sites@[i as int].callee,
                                    prog.callables@.len() as int,
                                ));
                            }
                            let site_safe = self.method_is_safe(prog, cache, &sites[i].callee, tag);
                            if !site_safe {
                                all_safe = false;
                            }
                            proof {
                                lemma_check_edges_snoc(
                                    *prog,
                                    m1,
                                    stack1,
                                    sites@.take(i as int),
                                    sites@[i as int],
                                    tag.idx(),
                                );
                                assert(sites@.take(i + 1) =~= sites@.take(i as int).push(
                                    sites@[i as int],
                                ));
                            }
                            i = i + 1;
                        }
                        let ghost prepop = self.stack();
                        let _ = self.visit_stack.pop();
                        proof {
                            assert(self.stack() =~= prepop.drop_last());
                            assert(prepop.drop_last() =~= old(self).stack());
                            assert(sites@.take(ns as int) =~= sites@);
                        }
                        cache.mark(c, tag, all_safe);
                        proof {
                            let rm2 = spec_check_edges(
                                *prog,
                                m1,
                                old(self).stack().push(c as int),
                                spec_sites(*b),
                                tag.idx(),
                            );
                            assert(all_safe == rm2.0 && cache@ == CacheModel {
                                tags: rm2.1.tags,
                                locals: insert_if_absent(rm2.1.locals, (c as int, tag.idx()), rm2.0),
                                exts: rm2.1.exts,
                            });
                        }
                        all_safe
                    },
                }
            },
        }
    }

    /// The reporting entry point for one required-safety tag: interns the
    /// tag name, primes callable `c` as safe for it (a fact already
    /// recorded, such as an unsafe declaration seeded earlier, wins), and
    /// reports every call site of `c`'s body whose callee is unsafe for the
    /// tag.  This pass never asks the oracle about `c` itself.
    pub fn check_required_safety(
        &mut self,
        prog: &Program,
        cache: &mut StaticCache,
        c: usize,
        tag_name: &String,
    ) -> (diags: Vec<Diagnostic>)
        requires
            prog.wf(),
            old(cache).wf(),
            (c as int) < prog.callables@.len(),
            old(self).stack().len() == 0,
        ensures
            final(self).stack() == old(self).stack(),
            final(cache).wf(),
            diags.deep_view() == spec_check_tag(*prog, old(cache)@, c as int, tag_name@).0,
            final(cache)@ == spec_check_tag(*prog, old(cache)@, c as int, tag_name@).1,
    {
        let ghost m_tag0 = cache@;
        let t = cache.get_tag_or_add(tag_name);
        cache.mark(c, t, true);
        let ghost m_tag1 = cache@;
        proof {
            assert(m_tag1 =~= seed_one(m_tag0, c as int, tag_name@, true));
        }
        let mut diags: Vec<Diagnostic> = Vec::new();
        match &prog.callables[c].body {
            None => {
                proof {
                    assert(spec_check_tag(*prog, m_tag0, c as int, tag_name@) == (
                        Seq::<DiagModel>::empty(),
                        m_tag1,
                    ));
                    assert(diags.deep_view() =~= Seq::<DiagModel>::empty());
                }
            },
            Some(b) => {
                let sites = crate::program::scan_body(b);
                let message = build_message(tag_name);
                proof {
                    assert(prog.callables@[c as int].body == Some(*b));
                    assert(crate::program::wf_body(*b, prog.callables@.len() as int));
                    assert(sites_ok(*prog, sites@));
                }
                let ns = sites.len();
                let mut j: usize = 0;
                while j < ns
                    invariant
                        prog.wf(),
                        cache.wf(),
                        self.stack() == old(self).stack(),
                        old(self).stack().len() == 0,
                        ns == sites@.len(),
                        0 <= j <= ns,
                        sites_ok(*prog, sites@),
                        message@ == spec_message(tag_name@),
                        ({
                            let dm = spec_report_edges(
                                *prog,
                                m_tag1,
                                sites@.take(j as int),
                                t.idx(),
                                tag_name@,
                            );
                            diags.deep_view() == dm.0 && cache@ == dm.1
                        }),
                    decreases ns - j,
                {
                    proof {
                        assert(valid_target(
                            sites@[j as int].callee,
                            prog.callables@.len() as int,
                        ));
                        assert(self.stack() =~= Seq::<int>::empty());
                    }
                    let site_safe = self.method_is_safe(prog, cache, &sites[j].callee, t);
                    let ghost dv0 = diags.deep_view();
                    if !site_safe {
                        diags.push(
                            Diagnostic { location: sites[j].location, message: message.clone() },
                        );
                        proof {
                            assert(diags.deep_view() =~= dv0.push(
                                DiagModel {
                                    location: sites@[j as int].location as int,
                                    message: spec_message(tag_name@),
                                },
                            ));
                        }
                    }
                    proof {
                        lemma_report_edges_snoc(
                            *prog,
                            m_tag1,
                            sites@.take(j as int),
                            sites@[j as int],
                            t.idx(),
                            tag_name@,
                        );
                        assert(sites@.take(j + 1) =~= sites@.take(j as int).push(
                            sites@[j as int],
                        ));
                        let dm_prev = spec_report_edges(
                            *prog,
                            m_tag1,
                            sites@.take(j as int),
                            t.idx(),
                            tag_name@,
                        );
                        if site_safe {
                            assert(diags.deep_view() =~= dm_prev.0 + Seq::<DiagModel>::empty());
                        } else {
                            assert(diags.deep_view() =~= dm_prev.0 + seq![
                                DiagModel {
                                    location: sites@[j as int].location as int,
                                    message: spec_message(tag_name@),
                                },
                            ]);
                        }
                    }
                    j = j + 1;
                }
                proof {
                    assert(sites@.take(ns as int) =~= sites@);
                }
            },
        }
        diags
    }

    /// The per-callable hook the host drives once per compiled callable:
    /// records the callable's declared facts, then, for every tag it
    /// requires safety for, primes the callable itself as safe and reports
    /// each call site of its body whose callee is unsafe for the tag.
    pub fn check_fn(&mut self, prog: &Program, cache: &mut StaticCache, c: usize) -> (diags: Vec<
        Diagnostic,
    >)
        requires
            prog.wf(),
            old(cache).wf(),
            (c as int) < prog.callables@.len(),
            old(self).stack().len() == 0,
        ensures
            final(self).stack() == old(self).stack(),
            final(cache).wf(),
            diags.deep_view() == spec_check_fn(*prog, old(cache)@, c as int).0,
            final(cache)@ == spec_check_fn(*prog, old(cache)@, c as int).1,
    {
        let attrs = &prog.callables[c].attrs;
        let is_tags = get_tags(attrs, "is_safe");
        let not_tags = get_tags(attrs, "not_safe");
        let req_tags = get_tags(attrs, "req_safe");
        seed_names(cache, c, &is_tags, true);
        seed_names(cache, c, &not_tags, false);
        let ghost m2 = cache@;
        let mut diags: Vec<Diagnostic> = Vec::new();
        let nr = req_tags.len();
        let mut i: usize = 0;
        while i < nr
            invariant
                prog.wf(),
                cache.wf(),
                (c as int) < prog.callables@.len(),
                self.stack() == old(self).stack(),
                old(self).stack().len() == 0,
                nr == req_tags@.len(),
                0 <= i <= nr,
                req_tags.deep_view() == spec_get_tags(
                    prog.callables@[c as int].attrs@,
                    "req_safe"@,
                ),
                ({
                    let dm = spec_check_tags(
                        *prog,
                        m2,
                        c as int,
                        req_tags.deep_view().take(i as int),
                    );
                    diags.deep_view() == dm.0 && cache@ == dm.1
                }),
            decreases nr - i,
        {
            let ghost diags0 = diags.deep_view();
            let name = &req_tags[i];
            let mut d = self.check_required_safety(prog, cache, c, name);
            let ghost dv = d.deep_view();
            diags.append(&mut d);
            proof {
                assert(diags.deep_view() =~= diags0 + dv);
                lemma_check_tags_snoc(
                    *prog,
                    m2,
                    c as int,
                    req_tags.deep_view().take(i as int),
                    req_tags.deep_view()[i as int],
                );
                assert(req_tags.deep_view().take(i + 1) =~= req_tags.deep_view().take(
                    i as int,
                ).push(req_tags.deep_view()[i as int]));
                assert(req_tags.deep_view()[i as int] == name@);
            }
            i = i + 1;
        }
        proof {
            assert(req_tags.deep_view().take(nr as int) =~= req_tags.deep_view());
            assert(prog.callables@[c as int].attrs@ == attrs@);
        }
        diags
    }
}

} // verus!
