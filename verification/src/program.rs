//! The resolved facts that the host compiler hands the analysis: callable
//! identities, annotations in their already-parsed argument shape, and body
//! expression trees whose call targets name resolution has settled.  The
//! analysis never inspects raw syntax; this module is its whole view of the
//! program under analysis.

use vstd::prelude::*;

verus! {

/// Identity of an external callable: the dependency unit defining it, an
/// opaque per-unit symbol id, and its fully-qualified path.
pub struct ExternalId {
    pub unit: String,
    pub symbol: usize,
    pub path: String,
}

/// Identity of a callable: an index into the table of callables of the unit
/// under analysis, or an external reference into a precompiled dependency.
pub enum CallableId {
    Local(usize),
    External(ExternalId),
}

impl CallableId {
    /// A copy equal to `self`.
    pub fn duplicate(&self) -> (r: CallableId)
        ensures
            r == *self,
    {
        match self {
            CallableId::Local(c) => CallableId::Local(*c),
            CallableId::External(e) => CallableId::External(
                ExternalId { unit: e.unit.clone(), symbol: e.symbol, path: e.path.clone() },
            ),
        }
    }
}

/// The callee of a call expression, as the host's name or method resolution
/// reports it: resolved, or undetermined (an indirect call, or a dispatch
/// whose target the host cannot name).
pub enum CallTarget {
    Known(CallableId),
    Unknown,
}

/// A body expression, reduced to what the call-site scanner reads: call and
/// method-dispatch expressions carry their resolved target and location;
/// every expression keeps its sub-expressions, so nested calls are found.
pub enum Expr {
    Call(CallTarget, u64, Vec<Expr>),
    Other(Vec<Expr>),
}

/// One resolved call edge: the callee and the source location of the call.
pub struct CallSite {
    pub callee: CallableId,
    pub location: u64,
}

/// One argument inside an annotation's list: a bare identifier, a
/// `name = "string"` pair, or some other shape (skipped as malformed).
pub enum MetaArg {
    Word(String),
    NameValue(String, String),
    Other,
}

/// A callable's annotation: its name and, when its argument is a list, the
/// list items.  `args` is `None` when the argument is not a list (a
/// malformed annotation, skipped as a whole).
pub struct Attribute {
    pub name: String,
    pub args: Option<Vec<MetaArg>>,
}

/// A callable of the unit under analysis: its annotations and, when the
/// host's metadata maps it to a function-like item, its body.  A missing
/// body marks an inconsistency in the host's data; the engine treats such a
/// callable as safe rather than abort the analysis.
pub struct CallableInfo {
    pub attrs: Vec<Attribute>,
    pub body: Option<Expr>,
}

/// The unit under analysis, as handed over by the host: one entry per
/// callable, indexed by the `CallableId::Local` indices its bodies mention.
pub struct Program {
    pub callables: Vec<CallableInfo>,
}

/// The call sites a resolved call expression itself contributes: one edge
/// when the target is known, none otherwise (unresolvable targets are
/// skipped; an edge that cannot be attributed is never flagged).
pub open spec fn spec_target_sites(t: CallTarget, loc: u64) -> Seq<CallSite> {
    match t {
        CallTarget::Known(id) => seq![CallSite { callee: id, location: loc }],
        CallTarget::Unknown => Seq::empty(),
    }
}

/// Every resolved call site in `e`, in depth-first order, a call expression
/// before the sites of its sub-expressions.
pub open spec fn spec_sites(e: Expr) -> Seq<CallSite>
    decreases e,
{
    match e {
        Expr::Call(t, loc, subs) => spec_target_sites(t, loc) + spec_sites_seq(subs@),
        Expr::Other(subs) => spec_sites_seq(subs@),
    }
}

/// The concatenated call sites of a sequence of expressions.
pub open spec fn spec_sites_seq(es: Seq<Expr>) -> Seq<CallSite>
    decreases es,
{
    if es.len() == 0 {
        Seq::empty()
    } else {
        spec_sites(es[0]) + spec_sites_seq(es.drop_first())
    }
}

proof fn lemma_sites_seq_snoc(es: Seq<Expr>)
    requires
        es.len() > 0,
    ensures
        spec_sites_seq(es) == spec_sites_seq(es.drop_last()) + spec_sites(es.last()),
    decreases es.len(),
{
    if es.len() == 1 {
        assert(es.drop_last() =~= Seq::empty());
        assert(es.drop_first() =~= Seq::empty());
        assert(spec_sites_seq(es) =~= spec_sites_seq(es.drop_last()) + spec_sites(es.last()));
    } else {
        lemma_sites_seq_snoc(es.drop_first());
        assert(es.drop_first().drop_last() =~= es.drop_last().drop_first());
        assert(es.drop_last()[0] == es[0]);
        assert(es.drop_first().last() == es.last());
        assert(spec_sites_seq(es) =~= spec_sites_seq(es.drop_last()) + spec_sites(es.last()));
    }
}

proof fn lemma_sites_seq_step(es: Seq<Expr>, i: int)
    requires
        0 <= i < es.len(),
    ensures
        spec_sites_seq(es.take(i + 1)) == spec_sites_seq(es.take(i)) + spec_sites(es[i]),
{
    lemma_sites_seq_snoc(es.take(i + 1));
    assert(es.take(i + 1).drop_last() =~= es.take(i));
    assert(es.take(i + 1).last() == es[i]);
}

/// Whether a callee identity stays inside a table of `n` callables.
pub open spec fn valid_target(id: CallableId, n: int) -> bool {
    match id {
        CallableId::Local(c) => (c as int) < n,
        CallableId::External(_) => true,
    }
}

/// Every call site of `e` resolves to a callee that exists.
pub open spec fn wf_body(e: Expr, n: int) -> bool {
    forall|i: int|
        0 <= i < spec_sites(e).len() ==> valid_target(#[trigger] spec_sites(e)[i].callee, n)
}

impl Program {
    /// The host's data is closed: every local callee named by a body is an
    /// index into the callable table.
    pub open spec fn wf(&self) -> bool {
        forall|c: int|
            0 <= c < self.callables@.len() ==> match #[trigger] self.callables@[c].body {
                Some(b) => wf_body(b, self.callables@.len() as int),
                None => true,
            }
    }

    /// Decides whether the host's data is closed, so unverified callers can
    /// validate a program before handing it to the engine.
    pub fn check_wf(&self) -> (r: bool)
        ensures
            r == self.wf(),
    {
        let n = self.callables.len();
        let mut c: usize = 0;
        while c < n
            invariant
                n == self.callables@.len(),
                0 <= c <= n,
                forall|k: int|
                    0 <= k < c ==> match #[trigger] self.callables@[k].body {
                        Some(b) => wf_body(b, self.callables@.len() as int),
                        None => true,
                    },
            decreases n - c,
        {
            match &self.callables[c].body {
                None => {},
                Some(b) => {
                    let sites = scan_body(b);
                    let m = sites.len();
                    let mut i: usize = 0;
                    while i < m
                        invariant
                            m == sites@.len(),
                            sites@ == spec_sites(*b),
                            n == self.callables@.len(),
                            0 <= c < n,
                            self.callables@[c as int].body == Some(*b),
                            0 <= i <= m,
                            forall|w: int|
                                0 <= w < i ==> valid_target(
                                    #[trigger] sites@[w].callee,
                                    n as int,
                                ),
                        decreases m - i,
                    {
                        match &sites[i].callee {
                            CallableId::Local(idx) => {
                                if *idx >= n {
                                    proof {
                                        assert(sites@[i as int].callee == CallableId::Local(*idx));
                                        assert(!valid_target(sites@[i as int].callee, n as int));
                                        assert(!wf_body(*b, n as int));
                                        assert(!self.wf());
                                    }
                                    return false;
                                }
                            },
                            CallableId::External(_) => {},
                        }
                        i = i + 1;
                    }
                    proof {
                        assert(wf_body(*b, n as int));
                    }
                },
            }
            c = c + 1;
        }
        true
    }
}

fn visit_expr(e: &Expr, out: &mut Vec<CallSite>)
    ensures
        final(out)@ == old(out)@ + spec_sites(*e),
    decreases *e,
{
    match e {
        Expr::Call(target, loc, subs) => {
            match target {
                CallTarget::Known(id) => {
                    out.push(CallSite { callee: id.duplicate(), location: *loc });
                    proof {
                        assert(out@ =~= old(out)@ + spec_target_sites(*target, *loc));
                    }
                },
                CallTarget::Unknown => {
                    proof {
                        assert(out@ =~= old(out)@ + spec_target_sites(*target, *loc));
                    }
                },
            }
            let n = subs.len();
            let mut i: usize = 0;
            while i < n
                invariant
                    n == subs@.len(),
                    0 <= i <= n,
                    *e == Expr::Call(*target, *loc, *subs),
                    out@ == old(out)@ + spec_target_sites(*target, *loc) + spec_sites_seq(
                        subs@.take(i as int),
                    ),
                decreases n - i,
            {
                proof {
                    assert(decreases_to!(*e => (*e)->Call_2));
                    assert((*e)->Call_2 == *subs);
                    assert(decreases_to!(*subs => subs@));
                    assert(decreases_to!(subs@ => subs@[i as int]));
                }
                visit_expr(&subs[i], out);
                proof {
                    lemma_sites_seq_step(subs@, i as int);
                }
                i = i + 1;
            }
            proof {
                assert(subs@.take(n as int) =~= subs@);
            }
        },
        Expr::Other(subs) => {
            let n = subs.len();
            let mut i: usize = 0;
            while i < n
                invariant
                    n == subs@.len(),
                    0 <= i <= n,
                    *e == Expr::Other(*subs),
                    out@ == old(out)@ + spec_sites_seq(subs@.take(i as int)),
                decreases n - i,
            {
                proof {
                    assert(decreases_to!(*e => (*e)->Other_0));
                    assert((*e)->Other_0 == *subs);
                    assert(decreases_to!(*subs => subs@));
                    assert(decreases_to!(subs@ => subs@[i as int]));
                }
                visit_expr(&subs[i], out);
                proof {
                    lemma_sites_seq_step(subs@, i as int);
                }
                i = i + 1;
            }
            proof {
                assert(subs@.take(n as int) =~= subs@);
            }
        },
    }
}

/// Scans a callable's body expression tree and collects every resolved call
/// site, in the order a depth-first walk meets them.
pub fn scan_body(body: &Expr) -> (sites: Vec<CallSite>)
    ensures
        sites@ == spec_sites(*body),
{
    let mut out = Vec::new();
    visit_expr(body, &mut out);
    proof {
        assert(out@ =~= spec_sites(*body));
    }
    out
}

} // verus!
