use call_stack::builder::{choose_void, classify_call, is_formatter_sig, trait_method_key, CallKind};
use call_stack::graph::{Graph, Node};
use call_stack::ir::{FnSig, Type};
use call_stack::present::{dot, rename_unambiguous, Escaper};
use call_stack::strings::{dehash, find_str, starts_with, str_eq, u64_dec};
use call_stack::symbols::normalize_undefined;

#[test]
fn dehash_strips_a_hash_suffix() {
    assert_eq!(
        dehash("foo::bar::hfc5adc5d79855638"),
        Some("foo::bar")
    );
    assert_eq!(dehash("foo::bar"), None);
    assert_eq!(dehash("::hfc5adc5d79855638"), None);
}

#[test]
fn dehash_twice_equals_dehash_once() {
    // a name with a single hash suffix loses nothing on the second strip
    let once = dehash("core::ptr::drop_in_place::h1a2b3c4d5e6f7a8b").unwrap();
    assert_eq!(once, "core::ptr::drop_in_place");
    assert_eq!(dehash(once), None);
}

#[test]
fn version_suffix_is_stripped() {
    assert_eq!(normalize_undefined("memcpy@@GLIBC_2.14"), "memcpy");
    assert_eq!(normalize_undefined("memcpy"), "memcpy");
    assert_eq!(normalize_undefined("a@@b@@c"), "b");
}

#[test]
fn version_normalization_is_idempotent() {
    for sym in ["memcpy@@GLIBC_2.14", "plain", "a@@b@@c", "@@", "x@"] {
        let once = normalize_undefined(sym).to_string();
        let twice = normalize_undefined(once.as_str()).to_string();
        assert_eq!(once, twice);
    }
}

#[test]
fn trait_method_keys_are_recognized() {
    assert_eq!(
        trait_method_key("<foo::A as bar::B>::run::h0123456789abcdef"),
        Some("bar::B::run".to_string())
    );
    assert_eq!(trait_method_key("foo::bar::h0123456789abcdef"), None);
    assert_eq!(trait_method_key("<foo::A>::run::h0123456789abcdef"), None);
}

#[test]
fn void_alias_prefers_the_literal() {
    let cands = vec![
        "core::fmt::Void.12".to_string(),
        "fmt::Void".to_string(),
    ];
    assert_eq!(choose_void(&cands), Some("fmt::Void".to_string()));
}

#[test]
fn void_alias_falls_back_to_the_core_prefix() {
    let cands = vec!["whatever".to_string(), "core::fmt::Void.3".to_string()];
    assert_eq!(choose_void(&cands), Some("core::fmt::Void.3".to_string()));
}

#[test]
fn lone_void_candidate_wins() {
    let cands = vec!["SomeRandomType".to_string()];
    assert_eq!(choose_void(&cands), Some("SomeRandomType".to_string()));
}

#[test]
fn ambiguous_void_candidates_stay_open() {
    let cands = vec!["A".to_string(), "B".to_string()];
    assert_eq!(choose_void(&cands), None);
}

#[test]
fn void_choice_is_deterministic() {
    let cands = vec!["core::fmt::Void".to_string(), "other".to_string()];
    let first = choose_void(&cands);
    let second = choose_void(&cands);
    assert_eq!(first, second);
}

#[test]
fn intrinsics_classify_by_the_tables() {
    assert_eq!(classify_call("llvm.dbg.value", false), CallKind::Skip);
    assert_eq!(classify_call("llvm.lifetime.start.p0", false), CallKind::Skip);
    assert_eq!(classify_call("llvm.memcpy.p0.p0.i32", false), CallKind::Memcpy);
    assert_eq!(classify_call("llvm.memset.p0.i32", false), CallKind::Memset);
    assert_eq!(classify_call("llvm.memmove.p0.p0.i32", false), CallKind::Memset);
    assert_eq!(
        classify_call("llvm.uadd.with.overflow.i32", false),
        CallKind::MachineCode
    );
    assert_eq!(classify_call("llvm.bogus", false), CallKind::Invalid);
    assert_eq!(classify_call("memcpy", false), CallKind::Ordinary);
    // a Thumb target resolves remaining intrinsics from the machine code
    assert_eq!(classify_call("llvm.memcpy.p0.p0.i32", true), CallKind::Deferred);
    assert_eq!(classify_call("llvm.dbg.value", true), CallKind::Skip);
}

#[test]
fn formatter_shape_is_recognized() {
    let sig = FnSig {
        inputs: vec![
            Type::Pointer(Box::new(Type::Alias("fmt::Void".to_string()))),
            Type::Pointer(Box::new(Type::Alias("core::fmt::Formatter".to_string()))),
        ],
        output: Some(Box::new(Type::Integer(1))),
    };
    assert!(is_formatter_sig(&sig));
    let other = FnSig {
        inputs: vec![Type::Integer(32)],
        output: None,
    };
    assert!(!is_formatter_sig(&other));
}

#[test]
fn mangled_names_demangle_for_presentation() {
    // if demangling handed its argument back, the hash strip would fail and
    // the node would keep its mangled name
    let mut g = Graph::new();
    g.add_node(Node(
        "_ZN3foo3bar17h0123456789abcdefE".to_string(),
        Some(4),
        false,
    ));
    let counts = vec![("foo::bar".to_string(), 1usize)];
    rename_unambiguous(&mut g, &counts);
    assert_eq!(g.nodes[0].name, "foo::bar");
}

#[test]
fn ambiguous_names_keep_their_hashes() {
    let mut g = Graph::new();
    g.add_node(Node(
        "_ZN1a17h1111111111111111E".to_string(),
        Some(4),
        false,
    ));
    g.add_node(Node(
        "_ZN1a17h2222222222222222E".to_string(),
        Some(8),
        false,
    ));
    let counts = vec![("a".to_string(), 2usize)];
    rename_unambiguous(&mut g, &counts);
    assert_eq!(g.nodes[0].name, "_ZN1a17h1111111111111111E");
    assert_eq!(g.nodes[1].name, "_ZN1a17h2222222222222222E");
}

#[test]
fn escaper_quotes_the_quotes() {
    let mut e = Escaper::new();
    e.write_str("a\"b");
    assert_eq!(e.finish(), "a\\\"b");
}

#[test]
fn dot_renders_one_node() {
    let mut g = Graph::new();
    g.add_node(Node("a".to_string(), Some(4), false));
    let cycles: Vec<Vec<usize>> = Vec::new();
    let text = dot(&g, &cycles);
    assert_eq!(
        text,
        "digraph {\n    node [fontname=monospace shape=box]\n    0 [label=\"a\\nlocal = 4\"]\n}\n"
    );
}

#[test]
fn dot_renders_edges_and_clusters() {
    let mut g = Graph::new();
    g.add_node(Node("a".to_string(), Some(4), false));
    g.add_node(Node("b".to_string(), None, true));
    g.add_edge(0, 1);
    let cycles = vec![vec![0usize]];
    let text = dot(&g, &cycles);
    assert!(text.contains("    0 -> 1\n"));
    assert!(text.contains("style=dashed]"));
    assert!(text.contains("subgraph cluster_0 {"));
    assert!(text.contains("label=\"SCC0\""));
    assert!(text.contains("        0\n"));
    assert!(text.contains("local = ?"));
}

#[test]
fn string_search_finds_first_occurrences() {
    assert_eq!(find_str("a as b as c", " as "), Some(1));
    assert_eq!(find_str("abc", "zz"), None);
    assert!(starts_with("core::fmt::Void.1", "core::fmt::Void"));
    assert!(!starts_with("fmt", "fmt::Void"));
    assert!(str_eq("same", "same"));
    assert!(!str_eq("same", "other"));
}

#[test]
fn decimal_rendering_is_plain() {
    assert_eq!(u64_dec(0), "0");
    assert_eq!(u64_dec(7), "7");
    assert_eq!(u64_dec(12045), "12045");
    assert_eq!(u64_dec(u64::MAX), "18446744073709551615");
}
