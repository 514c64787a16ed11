use tag_safe::HandlerTaggedSafe;
use tag_safe::LoadError;
use tag_safe::MetaArg;
use tag_safe::StaticCache;

fn strings(items: &[&str]) -> Vec<String> {
    items.iter().map(|s| String::from(*s)).collect()
}

#[test]
fn load_rejects_bad_header() {
    let mut cache = StaticCache::new();
    let t = cache.get_tag_or_add(&String::from("print"));
    let r = cache.load_crate(&String::from("std"), t, &strings(&["maybe", "x"]));
    assert_eq!(r, Err(LoadError::Format));
}

#[test]
fn load_rejects_empty_list() {
    let mut cache = StaticCache::new();
    let t = cache.get_tag_or_add(&String::from("print"));
    let r = cache.load_crate(&String::from("std"), t, &strings(&[]));
    assert_eq!(r, Err(LoadError::Format));
}

#[test]
fn default_true_inverts_exactly_exceptions() {
    let mut cache = StaticCache::new();
    let t = cache.get_tag_or_add(&String::from("print"));
    let r = cache.load_crate(&String::from("std"), t, &strings(&["true", "std::io::println"]));
    assert_eq!(r, Ok(()));
    assert_eq!(
        cache.get_extern(&String::from("std"), 1, &String::from("std::io::println"), t),
        Some(false)
    );
    assert_eq!(
        cache.get_extern(&String::from("std"), 2, &String::from("std::mem::swap"), t),
        Some(true)
    );
}

#[test]
fn default_false_inverts_exactly_exceptions() {
    let mut cache = StaticCache::new();
    let t = cache.get_tag_or_add(&String::from("alloc"));
    let r = cache.load_crate(&String::from("libc"), t, &strings(&["false", "libc::free"]));
    assert_eq!(r, Ok(()));
    assert_eq!(cache.get_extern(&String::from("libc"), 1, &String::from("libc::free"), t), Some(true));
    assert_eq!(cache.get_extern(&String::from("libc"), 2, &String::from("libc::abort"), t), Some(false));
}

#[test]
fn unknown_unit_has_no_table() {
    let mut cache = StaticCache::new();
    let t = cache.get_tag_or_add(&String::from("print"));
    assert_eq!(cache.get_extern(&String::from("std"), 1, &String::from("std::io::println"), t), None);
}

#[test]
fn table_is_per_tag() {
    let mut cache = StaticCache::new();
    let t1 = cache.get_tag_or_add(&String::from("print"));
    let t2 = cache.get_tag_or_add(&String::from("alloc"));
    let r = cache.load_crate(&String::from("std"), t1, &strings(&["true", "std::io::println"]));
    assert_eq!(r, Ok(()));
    assert_eq!(cache.get_extern(&String::from("std"), 1, &String::from("std::io::println"), t2), None);
}

#[test]
fn first_registration_wins() {
    let mut cache = StaticCache::new();
    let t = cache.get_tag_or_add(&String::from("print"));
    assert_eq!(cache.load_crate(&String::from("std"), t, &strings(&["true"])), Ok(()));
    assert_eq!(cache.load_crate(&String::from("std"), t, &strings(&["false", "q"])), Ok(()));
    // The second registration was a no-op: default stays true, no exception.
    assert_eq!(cache.get_extern(&String::from("std"), 1, &String::from("q"), t), Some(true));
}

#[test]
fn resolution_is_memoized_by_symbol() {
    let mut cache = StaticCache::new();
    let t = cache.get_tag_or_add(&String::from("print"));
    assert_eq!(cache.load_crate(&String::from("std"), t, &strings(&["true", "a::b"])), Ok(()));
    assert_eq!(cache.get_extern(&String::from("std"), 1, &String::from("a::b"), t), Some(false));
    // The same symbol keeps its recorded verdict, whatever name is passed.
    assert_eq!(cache.get_extern(&String::from("std"), 1, &String::from("zzz"), t), Some(false));
}

#[test]
fn list_lines_are_trimmed() {
    let mut cache = StaticCache::new();
    let t = cache.get_tag_or_add(&String::from("print"));
    let r = cache.load_crate(&String::from("std"), t, &strings(&["  true\t", "  a::b  "]));
    assert_eq!(r, Ok(()));
    assert_eq!(cache.get_extern(&String::from("std"), 1, &String::from("a::b"), t), Some(false));
}

#[test]
fn blank_line_is_an_entry() {
    // A blank line becomes the empty-string exception entry; it is not
    // specially treated.
    let mut cache = StaticCache::new();
    let t = cache.get_tag_or_add(&String::from("print"));
    let r = cache.load_crate(&String::from("std"), t, &strings(&["true", "", "a::b"]));
    assert_eq!(r, Ok(()));
    assert_eq!(cache.get_extern(&String::from("std"), 1, &String::from(""), t), Some(false));
    assert_eq!(cache.get_extern(&String::from("std"), 2, &String::from("a::b"), t), Some(false));
    assert_eq!(cache.get_extern(&String::from("std"), 3, &String::from("c"), t), Some(true));
}

#[test]
fn handler_collects_name_value_pairs_only() {
    let handler = HandlerTaggedSafe;
    let args = vec![
        MetaArg::NameValue(String::from("print"), String::from("lists/std_print.txt")),
        MetaArg::Word(String::from("stray")),
        MetaArg::Other,
        MetaArg::NameValue(String::from("alloc"), String::from("lists/std_alloc.txt")),
    ];
    let pairs = handler.collect(&args);
    assert_eq!(pairs.len(), 2);
    assert_eq!(pairs[0].0, String::from("print"));
    assert_eq!(pairs[0].1, String::from("lists/std_print.txt"));
    assert_eq!(pairs[1].0, String::from("alloc"));
    assert_eq!(pairs[1].1, String::from("lists/std_alloc.txt"));
}

#[test]
fn handler_register_reports_format_error() {
    let handler = HandlerTaggedSafe;
    let mut cache = StaticCache::new();
    let r = handler.register(
        &mut cache,
        &String::from("std"),
        &String::from("print"),
        &strings(&["neither"]),
    );
    assert_eq!(r, Err(LoadError::Format));
}

#[test]
fn load_error_variants_differ() {
    assert!(LoadError::Io != LoadError::Format);
    assert_eq!(LoadError::Io, LoadError::Io);
}
