use call_stack::graph::{Graph, Node};
use call_stack::ir::{FnSig, Type};
use call_stack::present::{build_rows, sort_rows, Row};
use call_stack::symbols::{choose_canonical, fallback_size, Tag, Target};
use call_stack::usage::{max, max_of, Local, Max};

#[test]
fn maximum_degrades_to_lower_bounds() {
    assert_eq!(max(Max::Exact(3), Max::Exact(5)), Max::Exact(5));
    assert_eq!(max(Max::Exact(3), Max::LowerBound(5)), Max::LowerBound(5));
    assert_eq!(max(Max::LowerBound(9), Max::Exact(5)), Max::LowerBound(9));
    assert_eq!(
        max(Max::LowerBound(1), Max::LowerBound(2)),
        Max::LowerBound(2)
    );
}

#[test]
fn maximum_of_a_list() {
    assert_eq!(max_of(&vec![]), None);
    assert_eq!(
        max_of(&vec![Max::Exact(4), Max::Exact(9), Max::Exact(2)]),
        Some(Max::Exact(9))
    );
    assert_eq!(
        max_of(&vec![Max::Exact(4), Max::LowerBound(2)]),
        Some(Max::LowerBound(4))
    );
}

#[test]
fn addition_is_exact_only_when_both_sides_are() {
    assert_eq!(Max::Exact(4).add_local(Local::Exact(3)), Max::Exact(7));
    assert_eq!(Max::Exact(4).add_local(Local::Unknown), Max::LowerBound(4));
    assert_eq!(
        Max::LowerBound(4).add_local(Local::Exact(3)),
        Max::LowerBound(7)
    );
    assert_eq!(Max::Exact(4).add_max(Max::Exact(6)), Max::Exact(10));
    assert_eq!(Max::Exact(4).add_max(Max::LowerBound(6)), Max::LowerBound(10));
}

#[test]
fn lifting_an_unknown_local_gives_the_zero_bound() {
    assert_eq!(Max::from(Local::Exact(12)), Max::Exact(12));
    assert_eq!(Max::from(Local::Unknown), Max::LowerBound(0));
}

#[test]
fn usage_displays_like_the_table_expects() {
    assert_eq!(Local::Exact(42).display(), "42");
    assert_eq!(Local::Unknown.display(), "?");
    assert_eq!(Max::Exact(4).display(), "= 4");
    assert_eq!(Max::LowerBound(8).display(), ">= 8");
}

#[test]
fn thumb_targets_are_recognized() {
    assert!(Target::Thumbv6m.is_thumb());
    assert!(Target::Thumbv7m.is_thumb());
    assert!(!Target::Other.is_thumb());
}

#[test]
fn canonical_name_prefers_the_stack_table() {
    let names = vec!["alias".to_string(), "known".to_string()];
    let table = vec![("known".to_string(), 8u64)];
    assert_eq!(choose_canonical(&names, &table), Some(1));
    // with nothing in the table the first non-marker name wins
    let names2 = vec!["$a.0".to_string(), "real".to_string()];
    assert_eq!(choose_canonical(&names2, &Vec::new()), Some(1));
    // a lone name stands for itself, marker or not
    let names3 = vec!["$a".to_string()];
    assert_eq!(choose_canonical(&names3, &Vec::new()), Some(0));
}

#[test]
fn zero_sizes_fall_back_to_the_tag_table() {
    let tags = vec![(100u32, Tag::Thumb), (108u32, Tag::Thumb), (120u32, Tag::Data)];
    assert_eq!(fallback_size(&tags, 100, 0), 8);
    assert_eq!(fallback_size(&tags, 100, 6), 6);
    // a following data tag gives no better size
    assert_eq!(fallback_size(&tags, 108, 0), 0);
    assert_eq!(fallback_size(&tags, 99, 0), 0);
}

#[test]
fn rows_follow_the_graph() {
    let mut g = Graph::new();
    g.add_node(Node("a".to_string(), Some(4), false));
    g.add_node(Node("b".to_string(), Some(8), false));
    g.add_edge(0, 1);
    let rows = build_rows(&g);
    assert_eq!(rows.len(), 2);
    assert_eq!(rows[0].index, 0);
    assert_eq!(rows[0].name, "a");
    assert_eq!(rows[0].callees, vec![1]);
    assert_eq!(rows[1].callees, Vec::<usize>::new());
    assert_eq!(g.incoming_count(1), 1);
    assert_eq!(g.incoming_count(0), 0);
}

#[test]
fn rows_sort_by_descending_bound_with_unknowns_last() {
    let mk = |m: Option<Max>| Row {
        index: 0,
        name: String::new(),
        local: Local::Unknown,
        max: m,
        callees: Vec::new(),
    };
    let mut rows = vec![
        mk(None),
        mk(Some(Max::Exact(4))),
        mk(Some(Max::LowerBound(9))),
        mk(Some(Max::Exact(7))),
    ];
    sort_rows(&mut rows);
    assert_eq!(rows[0].max, Some(Max::LowerBound(9)));
    assert_eq!(rows[1].max, Some(Max::Exact(7)));
    assert_eq!(rows[2].max, Some(Max::Exact(4)));
    assert_eq!(rows[3].max, None);
}

#[test]
fn edges_deduplicate_per_caller() {
    let mut g = Graph::new();
    g.add_node(Node("a".to_string(), Some(4), false));
    g.add_node(Node("b".to_string(), Some(8), false));
    g.add_edge_dedup(0, 1);
    g.add_edge_dedup(0, 1);
    assert_eq!(g.edges.len(), 1);
    assert!(g.has_edge(0, 1));
    assert!(!g.has_edge(1, 0));
}

#[test]
fn type_equality_is_structural() {
    let a = Type::Pointer(Box::new(Type::Alias("core::fmt::Formatter".to_string())));
    let b = Type::Pointer(Box::new(Type::Alias("core::fmt::Formatter".to_string())));
    assert!(a.equals(&b));
    assert!(!a.equals(&Type::Integer(8)));
    assert!(Type::Erased.has_been_erased());
    assert!(!Type::Integer(1).has_been_erased());
    let s1 = FnSig {
        inputs: vec![Type::Integer(32), Type::Erased],
        output: Some(Box::new(Type::Integer(1))),
    };
    let s2 = FnSig {
        inputs: vec![Type::Integer(32), Type::Erased],
        output: Some(Box::new(Type::Integer(1))),
    };
    let s3 = FnSig {
        inputs: vec![Type::Integer(32)],
        output: None,
    };
    assert!(s1.equals(&s2));
    assert!(!s1.equals(&s3));
}
