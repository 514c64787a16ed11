//! Expansion-time handlers: the typed front the host drives while expanding
//! annotations, before any callable is checked.  The override-registration
//! handler pairs tag names with override-list files for a dependency unit;
//! the declare handlers make the named tags known to the registry (the facts
//! themselves are recorded by the attribute seeder of the checking pass,
//! which reads the same annotations).

use crate::check::lemma_arg_words_snoc;
use crate::check::spec_arg_words;
use crate::database::exception_set;
use crate::database::header_value;
use crate::database::spec_intern;
use crate::database::CacheModel;
use crate::database::ExtModel;
use crate::database::LoadError;
use crate::database::StaticCache;
use crate::program::MetaArg;
use vstd::prelude::*;

verus! {

/// Handler for the override-registration annotation on a dependency unit.
pub struct HandlerTaggedSafe;

/// Handler for the declare-safe annotation at expansion time.
pub struct HandlerIsSafe;

/// Handler for the declare-unsafe annotation at expansion time.
pub struct HandlerNotSafe;

/// The `name = "value"` pairs among a list of annotation arguments.
pub open spec fn spec_arg_pairs(args: Seq<MetaArg>) -> Seq<(Seq<char>, Seq<char>)>
    decreases args.len(),
{
    if args.len() == 0 {
        Seq::empty()
    } else {
        let head = match args[0] {
            MetaArg::NameValue(n, v) => seq![(n@, v@)],
            _ => Seq::empty(),
        };
        head + spec_arg_pairs(args.drop_first())
    }
}

/// The character-level view of a collected pair list.
pub open spec fn pairs_view(s: Seq<(String, String)>) -> Seq<(Seq<char>, Seq<char>)> {
    s.map_values(|p: (String, String)| (p.0@, p.1@))
}

proof fn lemma_arg_pairs_snoc(args: Seq<MetaArg>)
    requires
        args.len() > 0,
    ensures
        spec_arg_pairs(args) == spec_arg_pairs(args.drop_last()) + (match args.last() {
            MetaArg::NameValue(n, v) => seq![(n@, v@)],
            _ => Seq::empty(),
        }),
    decreases args.len(),
{
    if args.len() == 1 {
        assert(args.drop_last() =~= Seq::empty());
        assert(args.drop_first() =~= Seq::empty());
        assert(spec_arg_pairs(args) =~= spec_arg_pairs(args.drop_last()) + (match args.last() {
            MetaArg::NameValue(n, v) => seq![(n@, v@)],
            _ => Seq::empty(),
        }));
    } else {
        lemma_arg_pairs_snoc(args.drop_first());
        assert(args.drop_first().drop_last() =~= args.drop_last().drop_first());
        assert(args.drop_last()[0] == args[0]);
        assert(args.drop_first().last() == args.last());
        assert(spec_arg_pairs(args) =~= spec_arg_pairs(args.drop_last()) + (match args.last() {
            MetaArg::NameValue(n, v) => seq![(n@, v@)],
            _ => Seq::empty(),
        }));
    }
}

/// What registering one override list does: the tag name is interned, and
/// the list is parsed and recorded unless a table already exists for the
/// unit and tag (first registration wins) or its header is malformed.
pub open spec fn spec_register(
    m: CacheModel,
    unit: Seq<char>,
    tname: Seq<char>,
    lines: Seq<Seq<char>>,
) -> (Result<(), LoadError>, CacheModel) {
    let t = spec_intern(m.tags, tname).0;
    let m1 = CacheModel { tags: spec_intern(m.tags, tname).1, locals: m.locals, exts: m.exts };
    if lines.len() == 0 || header_value(lines[0]) is None {
        (Err(LoadError::Format), m1)
    } else if m1.exts.contains_key((unit, t)) {
        (Ok(()), m1)
    } else {
        (
            Ok(()),
            CacheModel {
                tags: m1.tags,
                locals: m1.locals,
                exts: m1.exts.insert(
                    (unit, t),
                    ExtModel {
                        default: header_value(lines[0]) == Some(true),
                        exceptions: exception_set(lines),
                        resolved: Map::empty(),
                    },
                ),
            },
        )
    }
}

impl HandlerTaggedSafe {
    /// The `tag = "path"` pairs of the annotation's argument list, in
    /// order; items of any other shape are skipped as malformed.  The
    /// caller reads each named file and hands its lines to `register`.
    pub fn collect(&self, args: &Vec<MetaArg>) -> (pairs: Vec<(String, String)>)
        ensures
            pairs_view(pairs@) == spec_arg_pairs(args@),
    {
        let mut pairs: Vec<(String, String)> = Vec::new();
        let n = args.len();
        let mut i: usize = 0;
        while i < n
            invariant
                n == args@.len(),
                0 <= i <= n,
                pairs_view(pairs@) == spec_arg_pairs(args@.take(i as int)),
            decreases n - i,
        {
            proof {
                lemma_arg_pairs_snoc(args@.take(i + 1));
                assert(args@.take(i + 1).drop_last() =~= args@.take(i as int));
                assert(args@.take(i + 1).last() == args@[i as int]);
            }
            match &args[i] {
                MetaArg::NameValue(n0, v0) => {
                    pairs.push((n0.clone(), v0.clone()));
                    proof {
                        assert(args@[i as int] == MetaArg::NameValue(*n0, *v0));
                        assert(pairs_view(pairs@) =~= spec_arg_pairs(args@.take(i + 1)));
                    }
                },
                _ => {
                    proof {
                        assert(pairs_view(pairs@) =~= spec_arg_pairs(args@.take(i + 1)));
                    }
                },
            }
            i = i + 1;
        }
        proof {
            assert(args@.take(n as int) =~= args@);
        }
        pairs
    }

    /// Interns `tag_name` and registers the override list read from `lines`
    /// for dependency unit `crate_name`.
    pub fn register(
        &self,
        cache: &mut StaticCache,
        crate_name: &String,
        tag_name: &String,
        lines: &Vec<String>,
    ) -> (r: Result<(), LoadError>)
        requires
            old(cache).wf(),
        ensures
            final(cache).wf(),
            r == spec_register(old(cache)@, crate_name@, tag_name@, lines.deep_view()).0,
            final(cache)@ == spec_register(old(cache)@, crate_name@, tag_name@, lines.deep_view()).1,
    {
        let t = cache.get_tag_or_add(tag_name);
        let r = cache.load_crate(crate_name, t, lines);
        proof {
            let m1 = CacheModel {
                tags: spec_intern(old(cache)@.tags, tag_name@).1,
                locals: old(cache)@.locals,
                exts: old(cache)@.exts,
            };
            assert(cache@ =~= spec_register(
                old(cache)@,
                crate_name@,
                tag_name@,
                lines.deep_view(),
            ).1);
        }
        r
    }
}

/// The registry that results from interning a list of names in order.
pub open spec fn spec_intern_all(tags: Seq<Seq<char>>, names: Seq<Seq<char>>) -> Seq<Seq<char>>
    decreases names.len(),
{
    if names.len() == 0 {
        tags
    } else {
        spec_intern_all(spec_intern(tags, names[0]).1, names.drop_first())
    }
}

proof fn lemma_intern_all_snoc(tags: Seq<Seq<char>>, names: Seq<Seq<char>>, x: Seq<char>)
    ensures
        spec_intern_all(tags, names.push(x)) == spec_intern(
            spec_intern_all(tags, names),
            x,
        ).1,
    decreases names.len(),
{
    if names.len() == 0 {
        assert(names.push(x)[0] == x);
        assert(names.push(x).drop_first() =~= Seq::<Seq<char>>::empty());
        assert(spec_intern_all(spec_intern(tags, x).1, Seq::empty()) == spec_intern(tags, x).1);
        assert(spec_intern_all(tags, names) == tags);
    } else {
        lemma_intern_all_snoc(spec_intern(tags, names[0]).1, names.drop_first(), x);
        assert(names.push(x)[0] == names[0]);
        assert(names.push(x).drop_first() =~= names.drop_first().push(x));
    }
}

fn intern_words(cache: &mut StaticCache, args: &Vec<MetaArg>)
    requires
        old(cache).wf(),
    ensures
        final(cache).wf(),
        final(cache)@.tags == spec_intern_all(old(cache)@.tags, spec_arg_words(args@)),
        final(cache)@.locals == old(cache)@.locals,
        final(cache)@.exts == old(cache)@.exts,
{
    let n = args.len();
    let mut i: usize = 0;
    while i < n
        invariant
            n == args@.len(),
            0 <= i <= n,
            cache.wf(),
            cache@.tags == spec_intern_all(old(cache)@.tags, spec_arg_words(args@.take(i as int))),
            cache@.locals == old(cache)@.locals,
            cache@.exts == old(cache)@.exts,
        decreases n - i,
    {
        proof {
            lemma_arg_words_snoc(args@.take(i + 1));
            assert(args@.take(i + 1).drop_last() =~= args@.take(i as int));
            assert(args@.take(i + 1).last() == args@[i as int]);
        }
        match &args[i] {
            MetaArg::Word(w) => {
                let _ = cache.get_tag_or_add(w);
                proof {
                    assert(args@[i as int] == MetaArg::Word(*w));
                    lemma_intern_all_snoc(
                        old(cache)@.tags,
                        spec_arg_words(args@.take(i as int)),
                        w@,
                    );
                    assert(spec_arg_words(args@.take(i + 1)) =~= spec_arg_words(
                        args@.take(i as int),
                    ).push(w@));
                }
            },
            _ => {
                proof {
                    assert(spec_arg_words(args@.take(i + 1)) =~= spec_arg_words(
                        args@.take(i as int),
                    ));
                }
            },
        }
        i = i + 1;
    }
    proof {
        assert(args@.take(n as int) =~= args@);
    }
}

impl HandlerIsSafe {
    /// Interns every tag named as a bare identifier in a declare-safe
    /// annotation's argument list.
    pub fn expand(&self, cache: &mut StaticCache, args: &Vec<MetaArg>)
        requires
            old(cache).wf(),
        ensures
            final(cache).wf(),
            final(cache)@.tags == spec_intern_all(old(cache)@.tags, spec_arg_words(args@)),
            final(cache)@.locals == old(cache)@.locals,
            final(cache)@.exts == old(cache)@.exts,
    {
        intern_words(cache, args);
    }
}

impl HandlerNotSafe {
    /// Interns every tag named as a bare identifier in a declare-unsafe
    /// annotation's argument list.
    pub fn expand(&self, cache: &mut StaticCache, args: &Vec<MetaArg>)
        requires
            old(cache).wf(),
        ensures
            final(cache).wf(),
            final(cache)@.tags == spec_intern_all(old(cache)@.tags, spec_arg_words(args@)),
            final(cache)@.locals == old(cache)@.locals,
            final(cache)@.exts == old(cache)@.exts,
    {
        intern_words(cache, args);
    }
}

} // verus!
