use tag_safe::scan_body;
use tag_safe::Attribute;
use tag_safe::CallTarget;
use tag_safe::CallableId;
use tag_safe::CallableInfo;
use tag_safe::Diagnostic;
use tag_safe::Expr;
use tag_safe::ExternalId;
use tag_safe::HandlerTaggedSafe;
use tag_safe::MetaArg;
use tag_safe::Pass;
use tag_safe::Program;
use tag_safe::StaticCache;

fn attr(name: &str, tags: &[&str]) -> Attribute {
    Attribute {
        name: String::from(name),
        args: Some(tags.iter().map(|t| MetaArg::Word(String::from(*t))).collect()),
    }
}

fn call_local(target: usize, loc: u64) -> Expr {
    Expr::Call(CallTarget::Known(CallableId::Local(target)), loc, vec![])
}

fn call_external(unit: &str, symbol: usize, path: &str, loc: u64) -> Expr {
    Expr::Call(
        CallTarget::Known(CallableId::External(ExternalId {
            unit: String::from(unit),
            symbol,
            path: String::from(path),
        })),
        loc,
        vec![],
    )
}

fn check_all(prog: &Program, cache: &mut StaticCache) -> Vec<Diagnostic> {
    assert!(prog.check_wf());
    let mut pass = Pass::new();
    let mut all = Vec::new();
    for c in 0..prog.callables.len() {
        all.append(&mut pass.check_fn(prog, cache, c));
    }
    all
}

#[test]
fn unsafe_call_propagates_through_wrapper() {
    // unsafe_fn is declared unsafe for foo; wrapper only calls unsafe_fn;
    // caller requires safety for foo and only calls wrapper.
    let prog = Program {
        callables: vec![
            CallableInfo { attrs: vec![attr("not_safe", &["foo"])], body: Some(Expr::Other(vec![])) },
            CallableInfo { attrs: vec![], body: Some(call_local(0, 1)) },
            CallableInfo { attrs: vec![attr("req_safe", &["foo"])], body: Some(call_local(1, 2)) },
        ],
    };
    let mut cache = StaticCache::new();
    let diags = check_all(&prog, &mut cache);
    assert_eq!(diags.len(), 1);
    assert_eq!(diags[0].location, 2);
    assert_eq!(
        diags[0].message,
        String::from("Calling foo-unsafe method from a #[req_safe(foo)] method")
    );
}

#[test]
fn explicit_safe_declaration_short_circuits_body() {
    // Same call graph, but wrapper is declared safe for foo: no diagnostics.
    let prog = Program {
        callables: vec![
            CallableInfo { attrs: vec![attr("not_safe", &["foo"])], body: Some(Expr::Other(vec![])) },
            CallableInfo { attrs: vec![attr("is_safe", &["foo"])], body: Some(call_local(0, 1)) },
            CallableInfo { attrs: vec![attr("req_safe", &["foo"])], body: Some(call_local(1, 2)) },
        ],
    };
    let mut cache = StaticCache::new();
    let diags = check_all(&prog, &mut cache);
    assert_eq!(diags.len(), 0);
}

#[test]
fn override_list_flags_excepted_symbol_only() {
    // An override list for unit std, default true with one exception: only
    // the excepted symbol is flagged.
    let prog = Program {
        callables: vec![CallableInfo {
            attrs: vec![attr("req_safe", &["print"])],
            body: Some(Expr::Other(vec![
                call_external("std", 1, "std::io::println", 10),
                call_external("std", 2, "std::mem::swap", 11),
            ])),
        }],
    };
    let mut cache = StaticCache::new();
    let lines = vec![String::from("true"), String::from("std::io::println")];
    let handler = HandlerTaggedSafe;
    let r = handler.register(
        &mut cache,
        &String::from("std"),
        &String::from("print"),
        &lines,
    );
    assert!(r.is_ok());
    let diags = check_all(&prog, &mut cache);
    assert_eq!(diags.len(), 1);
    assert_eq!(diags[0].location, 10);
    assert_eq!(
        diags[0].message,
        String::from("Calling print-unsafe method from a #[req_safe(print)] method")
    );
}

#[test]
fn unknown_external_unit_is_assumed_safe() {
    // No override table registered for the unit: fail-open, no diagnostics.
    let prog = Program {
        callables: vec![CallableInfo {
            attrs: vec![attr("req_safe", &["print"])],
            body: Some(call_external("std", 1, "std::io::println", 10)),
        }],
    };
    let mut cache = StaticCache::new();
    let diags = check_all(&prog, &mut cache);
    assert_eq!(diags.len(), 0);
}

#[test]
fn cycle_terminates_and_assumes_safe() {
    // A -> B -> A with no annotations: the verdict is true.
    let prog = Program {
        callables: vec![
            CallableInfo { attrs: vec![], body: Some(call_local(1, 1)) },
            CallableInfo { attrs: vec![], body: Some(call_local(0, 2)) },
        ],
    };
    let mut cache = StaticCache::new();
    let mut pass = Pass::new();
    let t = cache.get_tag_or_add(&String::from("irq"));
    assert!(pass.method_is_safe(&prog, &mut cache, &CallableId::Local(0), t));
}

#[test]
fn repeated_query_returns_cached_verdict() {
    let prog = Program {
        callables: vec![
            CallableInfo { attrs: vec![attr("not_safe", &["a"])], body: Some(Expr::Other(vec![])) },
            CallableInfo { attrs: vec![], body: Some(call_local(0, 1)) },
        ],
    };
    let mut cache = StaticCache::new();
    let mut pass = Pass::new();
    let t = cache.get_tag_or_add(&String::from("a"));
    let first = pass.method_is_safe(&prog, &mut cache, &CallableId::Local(1), t);
    let second = pass.method_is_safe(&prog, &mut cache, &CallableId::Local(1), t);
    assert_eq!(first, false);
    assert_eq!(second, false);
}

#[test]
fn no_call_edges_means_safe() {
    let prog = Program {
        callables: vec![CallableInfo { attrs: vec![], body: Some(Expr::Other(vec![])) }],
    };
    let mut cache = StaticCache::new();
    let mut pass = Pass::new();
    let t = cache.get_tag_or_add(&String::from("a"));
    assert!(pass.method_is_safe(&prog, &mut cache, &CallableId::Local(0), t));
}

#[test]
fn one_unsafe_edge_makes_caller_unsafe() {
    let prog = Program {
        callables: vec![
            CallableInfo { attrs: vec![attr("is_safe", &["a"])], body: Some(Expr::Other(vec![])) },
            CallableInfo { attrs: vec![attr("not_safe", &["a"])], body: Some(Expr::Other(vec![])) },
            CallableInfo {
                attrs: vec![],
                body: Some(Expr::Other(vec![call_local(0, 1), call_local(1, 2)])),
            },
        ],
    };
    let mut cache = StaticCache::new();
    let mut pass = Pass::new();
    let t = cache.get_tag_or_add(&String::from("a"));
    assert_eq!(pass.method_is_safe(&prog, &mut cache, &CallableId::Local(2), t), false);
}

#[test]
fn all_safe_edges_make_caller_safe() {
    let prog = Program {
        callables: vec![
            CallableInfo { attrs: vec![attr("is_safe", &["a"])], body: Some(Expr::Other(vec![])) },
            CallableInfo { attrs: vec![], body: Some(Expr::Other(vec![])) },
            CallableInfo {
                attrs: vec![],
                body: Some(Expr::Other(vec![call_local(0, 1), call_local(1, 2)])),
            },
        ],
    };
    let mut cache = StaticCache::new();
    let mut pass = Pass::new();
    let t = cache.get_tag_or_add(&String::from("a"));
    assert!(pass.method_is_safe(&prog, &mut cache, &CallableId::Local(2), t));
}

#[test]
fn declare_unsafe_wins_over_body_contents() {
    // The callable's body has no unsafe call at all, but it is declared
    // unsafe: the declaration decides.
    let prog = Program {
        callables: vec![CallableInfo {
            attrs: vec![attr("not_safe", &["a"])],
            body: Some(Expr::Other(vec![])),
        }],
    };
    let mut cache = StaticCache::new();
    let mut pass = Pass::new();
    let t = cache.get_tag_or_add(&String::from("a"));
    assert_eq!(pass.method_is_safe(&prog, &mut cache, &CallableId::Local(0), t), false);
}

#[test]
fn declare_safe_wins_over_unsafe_body() {
    let prog = Program {
        callables: vec![
            CallableInfo { attrs: vec![attr("not_safe", &["a"])], body: Some(Expr::Other(vec![])) },
            CallableInfo { attrs: vec![attr("is_safe", &["a"])], body: Some(call_local(0, 1)) },
        ],
    };
    let mut cache = StaticCache::new();
    let mut pass = Pass::new();
    let t = cache.get_tag_or_add(&String::from("a"));
    assert!(pass.method_is_safe(&prog, &mut cache, &CallableId::Local(1), t));
}

#[test]
fn conflicting_declarations_resolve_safe_first() {
    // The seeder processes safe declarations before unsafe ones and the
    // first recorded fact wins.
    let prog = Program {
        callables: vec![CallableInfo {
            attrs: vec![attr("is_safe", &["a"]), attr("not_safe", &["a"])],
            body: Some(Expr::Other(vec![])),
        }],
    };
    let mut cache = StaticCache::new();
    let mut pass = Pass::new();
    let t = cache.get_tag_or_add(&String::from("a"));
    assert!(pass.method_is_safe(&prog, &mut cache, &CallableId::Local(0), t));
}

#[test]
fn required_safety_primes_callable_but_not_past_unsafe_declaration() {
    // A callable both declared unsafe for a tag and requiring safety for
    // it: the unsafe declaration is seeded first, so its own recursive call
    // is flagged.
    let prog = Program {
        callables: vec![CallableInfo {
            attrs: vec![attr("not_safe", &["a"]), attr("req_safe", &["a"])],
            body: Some(call_local(0, 3)),
        }],
    };
    let mut cache = StaticCache::new();
    let diags = check_all(&prog, &mut cache);
    assert_eq!(diags.len(), 1);
    assert_eq!(diags[0].location, 3);
}

#[test]
fn self_recursion_under_required_safety_is_not_flagged() {
    // Requiring safety primes the callable itself as safe, so a direct
    // self-recursive call produces no diagnostic.
    let prog = Program {
        callables: vec![CallableInfo {
            attrs: vec![attr("req_safe", &["a"])],
            body: Some(call_local(0, 3)),
        }],
    };
    let mut cache = StaticCache::new();
    let diags = check_all(&prog, &mut cache);
    assert_eq!(diags.len(), 0);
}

#[test]
fn nested_call_sites_are_found_in_order() {
    // A call whose argument holds another call: both are flagged, the outer
    // one first.
    let unsafe_inner = Expr::Call(CallTarget::Known(CallableId::Local(0)), 6, vec![]);
    let outer = Expr::Call(CallTarget::Known(CallableId::Local(0)), 5, vec![unsafe_inner]);
    let prog = Program {
        callables: vec![
            CallableInfo { attrs: vec![attr("not_safe", &["a"])], body: Some(Expr::Other(vec![])) },
            CallableInfo { attrs: vec![attr("req_safe", &["a"])], body: Some(outer) },
        ],
    };
    let mut cache = StaticCache::new();
    let diags = check_all(&prog, &mut cache);
    assert_eq!(diags.len(), 2);
    assert_eq!(diags[0].location, 5);
    assert_eq!(diags[1].location, 6);
}

#[test]
fn unresolved_call_targets_are_skipped() {
    let prog = Program {
        callables: vec![
            CallableInfo { attrs: vec![attr("not_safe", &["a"])], body: Some(Expr::Other(vec![])) },
            CallableInfo {
                attrs: vec![attr("req_safe", &["a"])],
                body: Some(Expr::Other(vec![
                    Expr::Call(CallTarget::Unknown, 7, vec![]),
                    call_local(0, 8),
                ])),
            },
        ],
    };
    let mut cache = StaticCache::new();
    let diags = check_all(&prog, &mut cache);
    assert_eq!(diags.len(), 1);
    assert_eq!(diags[0].location, 8);
}

#[test]
fn missing_body_is_fail_open() {
    // Host metadata names a local callable with no function-like body: it is
    // treated as safe.
    let prog = Program {
        callables: vec![
            CallableInfo { attrs: vec![], body: None },
            CallableInfo { attrs: vec![attr("req_safe", &["a"])], body: Some(call_local(0, 4)) },
        ],
    };
    let mut cache = StaticCache::new();
    let diags = check_all(&prog, &mut cache);
    assert_eq!(diags.len(), 0);
}

#[test]
fn independent_sessions_agree() {
    let build = || Program {
        callables: vec![
            CallableInfo { attrs: vec![attr("not_safe", &["foo"])], body: Some(Expr::Other(vec![])) },
            CallableInfo { attrs: vec![], body: Some(call_local(0, 1)) },
            CallableInfo { attrs: vec![attr("req_safe", &["foo"])], body: Some(call_local(1, 2)) },
        ],
    };
    let mut cache1 = StaticCache::new();
    let diags1 = check_all(&build(), &mut cache1);
    let mut cache2 = StaticCache::new();
    let diags2 = check_all(&build(), &mut cache2);
    assert_eq!(diags1.len(), diags2.len());
    for (a, b) in diags1.iter().zip(diags2.iter()) {
        assert_eq!(a.location, b.location);
        assert_eq!(a.message, b.message);
    }
}

#[test]
fn single_tag_entry_point_reports_violations() {
    // The per-tag reporting entry point can be driven directly, without a
    // require annotation on the callable.
    let prog = Program {
        callables: vec![
            CallableInfo { attrs: vec![attr("not_safe", &["foo"])], body: Some(Expr::Other(vec![])) },
            CallableInfo { attrs: vec![], body: Some(call_local(0, 9)) },
        ],
    };
    let mut cache = StaticCache::new();
    let mut pass = Pass::new();
    let diags = pass.check_required_safety(&prog, &mut cache, 1, &String::from("foo"));
    assert_eq!(diags.len(), 1);
    assert_eq!(diags[0].location, 9);
    assert_eq!(
        diags[0].message,
        String::from("Calling foo-unsafe method from a #[req_safe(foo)] method")
    );
}

#[test]
fn scanner_walks_whole_tree_in_order() {
    // A call inside a call's argument, a call under a non-call node, and an
    // unresolved call: the two resolved sites come out in walk order.
    let body = Expr::Other(vec![
        Expr::Call(
            CallTarget::Known(CallableId::Local(0)),
            1,
            vec![Expr::Call(CallTarget::Known(CallableId::Local(1)), 2, vec![])],
        ),
        Expr::Call(CallTarget::Unknown, 3, vec![]),
    ]);
    let sites = scan_body(&body);
    assert_eq!(sites.len(), 2);
    assert_eq!(sites[0].location, 1);
    assert!(matches!(sites[0].callee, CallableId::Local(0)));
    assert_eq!(sites[1].location, 2);
    assert!(matches!(sites[1].callee, CallableId::Local(1)));
}

#[test]
fn check_wf_rejects_dangling_callee() {
    let prog = Program {
        callables: vec![CallableInfo { attrs: vec![], body: Some(call_local(5, 1)) }],
    };
    assert!(!prog.check_wf());
}
