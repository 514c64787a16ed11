use tag_safe::fill_cache_for;
use tag_safe::get_tags;
use tag_safe::Attribute;
use tag_safe::CallableInfo;
use tag_safe::Expr;
use tag_safe::HandlerIsSafe;
use tag_safe::HandlerNotSafe;
use tag_safe::MetaArg;
use tag_safe::Program;
use tag_safe::StaticCache;

fn word(w: &str) -> MetaArg {
    MetaArg::Word(String::from(w))
}

#[test]
fn get_tags_collects_matching_annotations_in_order() {
    let attrs = vec![
        Attribute { name: String::from("is_safe"), args: Some(vec![word("a"), word("b")]) },
        Attribute { name: String::from("not_safe"), args: Some(vec![word("c")]) },
        Attribute { name: String::from("is_safe"), args: Some(vec![word("d")]) },
    ];
    let tags = get_tags(&attrs, "is_safe");
    assert_eq!(tags, vec![String::from("a"), String::from("b"), String::from("d")]);
    assert_eq!(get_tags(&attrs, "not_safe"), vec![String::from("c")]);
    assert_eq!(get_tags(&attrs, "req_safe").len(), 0);
}

#[test]
fn get_tags_skips_malformed_items() {
    let attrs = vec![
        // Not a list at all: the whole annotation is skipped.
        Attribute { name: String::from("is_safe"), args: None },
        // Items that are not bare identifiers are skipped; the rest stay.
        Attribute {
            name: String::from("is_safe"),
            args: Some(vec![
                MetaArg::NameValue(String::from("x"), String::from("y")),
                word("keep"),
                MetaArg::Other,
            ]),
        },
    ];
    assert_eq!(get_tags(&attrs, "is_safe"), vec![String::from("keep")]);
}

#[test]
fn interning_is_stable_per_name() {
    let mut cache = StaticCache::new();
    let t1 = cache.get_tag_or_add(&String::from("irq"));
    let t2 = cache.get_tag_or_add(&String::from("alloc"));
    let t3 = cache.get_tag_or_add(&String::from("irq"));
    assert!(t1 == t3);
    assert!(t1 != t2);
}

#[test]
fn mark_first_write_wins() {
    let mut cache = StaticCache::new();
    let t = cache.get_tag_or_add(&String::from("irq"));
    cache.mark(0, t, true);
    cache.mark(0, t, false);
    assert_eq!(cache.get_local(0, t), Some(true));
    assert_eq!(cache.get_local(1, t), None);
}

#[test]
fn seeder_records_declared_facts() {
    let prog = Program {
        callables: vec![CallableInfo {
            attrs: vec![
                Attribute { name: String::from("is_safe"), args: Some(vec![word("a")]) },
                Attribute { name: String::from("not_safe"), args: Some(vec![word("b")]) },
                Attribute { name: String::from("req_safe"), args: Some(vec![word("c")]) },
            ],
            body: Some(Expr::Other(vec![])),
        }],
    };
    let mut cache = StaticCache::new();
    fill_cache_for(&prog, &mut cache, 0);
    let ta = cache.get_tag_or_add(&String::from("a"));
    let tb = cache.get_tag_or_add(&String::from("b"));
    let tc = cache.get_tag_or_add(&String::from("c"));
    let td = cache.get_tag_or_add(&String::from("d"));
    assert_eq!(cache.get_local(0, ta), Some(true));
    assert_eq!(cache.get_local(0, tb), Some(false));
    assert_eq!(cache.get_local(0, tc), Some(true));
    assert_eq!(cache.get_local(0, td), None);
}

#[test]
fn seeding_twice_changes_nothing() {
    let prog = Program {
        callables: vec![CallableInfo {
            attrs: vec![Attribute { name: String::from("not_safe"), args: Some(vec![word("a")]) }],
            body: Some(Expr::Other(vec![])),
        }],
    };
    let mut cache = StaticCache::new();
    fill_cache_for(&prog, &mut cache, 0);
    fill_cache_for(&prog, &mut cache, 0);
    let ta = cache.get_tag_or_add(&String::from("a"));
    assert_eq!(cache.get_local(0, ta), Some(false));
}

#[test]
fn expansion_handlers_intern_names() {
    // After the declare handlers run, the named tags are already in the
    // registry, so a later name receives a later handle than it would in a
    // fresh session.
    let mut cache = StaticCache::new();
    HandlerIsSafe.expand(&mut cache, &vec![word("irq")]);
    HandlerNotSafe.expand(&mut cache, &vec![word("alloc")]);
    let t_late = cache.get_tag_or_add(&String::from("io"));
    let mut fresh = StaticCache::new();
    let t_fresh = fresh.get_tag_or_add(&String::from("io"));
    assert!(t_late != t_fresh);
    // Re-interning an expanded name in the first session keeps its handle.
    let mut again = StaticCache::new();
    HandlerIsSafe.expand(&mut again, &vec![word("irq")]);
    let t_irq = again.get_tag_or_add(&String::from("irq"));
    let mut control = StaticCache::new();
    let t_first = control.get_tag_or_add(&String::from("irq"));
    assert!(t_irq == t_first);
}

#[test]
fn expansion_handlers_record_no_facts() {
    let mut cache = StaticCache::new();
    HandlerNotSafe.expand(&mut cache, &vec![word("irq")]);
    let t = cache.get_tag_or_add(&String::from("irq"));
    assert_eq!(cache.get_local(0, t), None);
}
