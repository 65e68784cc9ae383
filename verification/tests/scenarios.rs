use call_stack::builder::{BuildError, SymbolAnalysis};
use call_stack::graph::{Graph, Node};
use call_stack::ir::{Declare, Define, FnSig, Stmt, Type};
use call_stack::pipeline::{analyze, solve_graph, AnalysisInput, MachineInput};
use call_stack::symbols::{DefinedSymbol, Target};
use call_stack::usage::{Local, Max};

fn chain_graph(locals: &[Option<u64>], edges: &[(usize, usize)]) -> Graph {
    let mut g = Graph::new();
    let names = ["a", "b", "c", "d", "e"];
    for (i, l) in locals.iter().enumerate() {
        g.add_node(Node(names[i].to_string(), *l, false));
    }
    for (x, y) in edges {
        g.add_edge(*x, *y);
    }
    g
}

fn sig_i32() -> FnSig {
    FnSig {
        inputs: vec![Type::Integer(32)],
        output: None,
    }
}

fn symbol(address: u64, size: u64, name: &str) -> DefinedSymbol {
    DefinedSymbol {
        address,
        size,
        names: vec![name.to_string()],
    }
}

fn base_input() -> AnalysisInput {
    AnalysisInput {
        defines: Vec::new(),
        declares: Vec::new(),
        symbols: Vec::new(),
        undefined: Vec::new(),
        stack_sizes: Vec::new(),
        target: Target::Other,
        machine: None,
        start: None,
    }
}

#[test]
fn straight_chain_is_exact() {
    let mut g = chain_graph(&[Some(4), Some(8), Some(16)], &[(0, 1), (1, 2)]);
    let solved = solve_graph(&mut g);
    assert!(solved.is_some());
    assert_eq!(g.nodes[0].max, Some(Max::Exact(28)));
    assert_eq!(g.nodes[1].max, Some(Max::Exact(24)));
    assert_eq!(g.nodes[2].max, Some(Max::Exact(16)));
}

#[test]
fn unknown_leaf_degrades_to_lower_bounds() {
    let mut g = chain_graph(&[Some(4), Some(8), None], &[(0, 1), (1, 2)]);
    solve_graph(&mut g).unwrap();
    assert_eq!(g.nodes[2].max, Some(Max::LowerBound(0)));
    assert_eq!(g.nodes[1].max, Some(Max::LowerBound(8)));
    assert_eq!(g.nodes[0].max, Some(Max::LowerBound(12)));
}

#[test]
fn simple_cycle_is_demoted() {
    let mut g = chain_graph(&[Some(4), Some(8)], &[(0, 1), (1, 0)]);
    let (_sccs, cycles) = solve_graph(&mut g).unwrap();
    assert_eq!(g.nodes[0].max, Some(Max::LowerBound(8)));
    assert_eq!(g.nodes[1].max, Some(Max::LowerBound(8)));
    assert_eq!(cycles.len(), 1);
    assert_eq!(cycles[0].len(), 2);
}

#[test]
fn cycle_feeding_leaf_adds_the_leaf() {
    let mut g = chain_graph(&[Some(4), Some(8), Some(16)], &[(0, 1), (1, 0), (1, 2)]);
    solve_graph(&mut g).unwrap();
    assert_eq!(g.nodes[2].max, Some(Max::Exact(16)));
    assert_eq!(g.nodes[0].max, Some(Max::LowerBound(24)));
    assert_eq!(g.nodes[1].max, Some(Max::LowerBound(24)));
}

#[test]
fn self_loop_is_a_cycle() {
    let mut g = chain_graph(&[Some(4)], &[(0, 0)]);
    let (_sccs, cycles) = solve_graph(&mut g).unwrap();
    assert_eq!(g.nodes[0].max, Some(Max::LowerBound(4)));
    assert_eq!(cycles.len(), 1);
}

#[test]
fn zero_stack_cycle_stays_exact() {
    let mut g = chain_graph(&[Some(0), Some(0)], &[(0, 1), (1, 0)]);
    solve_graph(&mut g).unwrap();
    assert_eq!(g.nodes[0].max, Some(Max::Exact(0)));
    assert_eq!(g.nodes[1].max, Some(Max::Exact(0)));
}

#[test]
fn indirect_dispatch_inserts_fictitious_node() {
    // two candidates of one signature, one caller through a pointer of it
    let mut input = base_input();
    input.symbols = vec![symbol(0, 2, "f"), symbol(4, 2, "g"), symbol(8, 2, "h")];
    input.stack_sizes = vec![
        ("f".to_string(), 4),
        ("g".to_string(), 12),
        ("h".to_string(), 2),
    ];
    input.defines = vec![
        Define {
            name: "f".to_string(),
            sig: sig_i32(),
            stmts: vec![],
        },
        Define {
            name: "g".to_string(),
            sig: sig_i32(),
            stmts: vec![],
        },
        Define {
            name: "h".to_string(),
            sig: FnSig {
                inputs: vec![],
                output: None,
            },
            stmts: vec![Stmt::IndirectCall(sig_i32())],
        },
    ];
    let out = analyze(input).unwrap();
    assert!(out.solved);
    let fic: Vec<usize> = (0..out.g.nodes.len())
        .filter(|v| out.g.nodes[*v].dashed)
        .collect();
    assert_eq!(fic.len(), 1);
    let call = fic[0];
    assert_eq!(out.g.nodes[call].local, Local::Exact(0));
    assert!(out.g.edges.contains(&(2, call)));
    assert!(out.g.edges.contains(&(call, 0)));
    assert!(out.g.edges.contains(&(call, 1)));
    // no fictitious node refers to itself
    assert!(!out.g.edges.contains(&(call, call)));
    assert_eq!(out.g.nodes[2].max, Some(Max::Exact(14)));
}

#[test]
fn untyped_symbols_poison_indirect_dispatch() {
    let mut input = base_input();
    input.symbols = vec![
        symbol(0, 2, "f"),
        symbol(4, 2, "g"),
        symbol(8, 2, "h"),
        symbol(12, 2, "blob"),
    ];
    input.stack_sizes = vec![
        ("f".to_string(), 4),
        ("g".to_string(), 12),
        ("h".to_string(), 2),
    ];
    input.defines = vec![
        Define {
            name: "f".to_string(),
            sig: sig_i32(),
            stmts: vec![],
        },
        Define {
            name: "g".to_string(),
            sig: sig_i32(),
            stmts: vec![],
        },
        Define {
            name: "h".to_string(),
            sig: FnSig {
                inputs: vec![],
                output: None,
            },
            stmts: vec![Stmt::IndirectCall(sig_i32())],
        },
    ];
    let out = analyze(input).unwrap();
    assert!(out.solved);
    assert_eq!(out.g.nodes[2].max, Some(Max::LowerBound(14)));
    // the fictitious node gained an unknown callee
    let unknown: Vec<usize> = (0..out.g.nodes.len())
        .filter(|v| out.g.nodes[*v].name == "?")
        .collect();
    assert_eq!(unknown.len(), 1);
    assert_eq!(out.g.nodes[unknown[0]].local, Local::Unknown);
}

#[test]
fn direct_calls_build_the_chain() {
    let mut input = base_input();
    input.symbols = vec![symbol(0, 2, "a"), symbol(4, 2, "b"), symbol(8, 2, "c")];
    input.stack_sizes = vec![
        ("a".to_string(), 4),
        ("b".to_string(), 8),
        ("c".to_string(), 16),
    ];
    input.defines = vec![
        Define {
            name: "a".to_string(),
            sig: sig_i32(),
            stmts: vec![Stmt::DirectCall("b".to_string())],
        },
        Define {
            name: "b".to_string(),
            sig: sig_i32(),
            stmts: vec![Stmt::DirectCall("c".to_string())],
        },
        Define {
            name: "c".to_string(),
            sig: sig_i32(),
            stmts: vec![],
        },
    ];
    let out = analyze(input).unwrap();
    assert!(out.solved);
    assert_eq!(out.g.nodes[0].max, Some(Max::Exact(28)));
    assert_eq!(out.g.nodes[1].max, Some(Max::Exact(24)));
    assert_eq!(out.g.nodes[2].max, Some(Max::Exact(16)));
}

#[test]
fn start_filter_restricts_to_reachable_nodes() {
    let mut input = base_input();
    input.symbols = vec![symbol(0, 2, "a"), symbol(4, 2, "b"), symbol(8, 2, "c")];
    input.stack_sizes = vec![
        ("a".to_string(), 4),
        ("b".to_string(), 8),
        ("c".to_string(), 16),
    ];
    input.defines = vec![
        Define {
            name: "a".to_string(),
            sig: sig_i32(),
            stmts: vec![Stmt::DirectCall("b".to_string())],
        },
        Define {
            name: "b".to_string(),
            sig: sig_i32(),
            stmts: vec![Stmt::DirectCall("c".to_string())],
        },
        Define {
            name: "c".to_string(),
            sig: sig_i32(),
            stmts: vec![],
        },
    ];
    input.start = Some("b".to_string());
    let out = analyze(input).unwrap();
    assert_eq!(out.g.nodes.len(), 2);
    let names: Vec<&str> = out.g.nodes.iter().map(|n| n.name.as_str()).collect();
    assert!(names.contains(&"b"));
    assert!(names.contains(&"c"));
    assert!(!names.contains(&"a"));
    assert!(out.solved);
    for v in 0..out.g.nodes.len() {
        if out.g.nodes[v].name == "b" {
            assert_eq!(out.g.nodes[v].max, Some(Max::Exact(24)));
        } else {
            assert_eq!(out.g.nodes[v].max, Some(Max::Exact(16)));
        }
    }
}

#[test]
fn machine_code_overrides_assembly_stack() {
    // the compiler reports 4 bytes, the machine code 8; the function holds
    // inline assembly, so the machine code wins
    let mut input = base_input();
    input.symbols = vec![symbol(0, 2, "f")];
    input.stack_sizes = vec![("f".to_string(), 4)];
    input.defines = vec![Define {
        name: "f".to_string(),
        sig: sig_i32(),
        stmts: vec![Stmt::Asm("push {r4}".to_string())],
    }];
    input.target = Target::Thumbv7m;
    input.machine = Some(MachineInput {
        sizes: vec![2],
        analyses: vec![SymbolAnalysis {
            bls: vec![],
            bs: vec![],
            indirect: false,
            modifies_sp: true,
            our_stack: Some(8),
        }],
    });
    let out = analyze(input).unwrap();
    assert_eq!(out.g.nodes[0].local, Local::Exact(8));
    assert_eq!(out.g.nodes[0].max, Some(Max::Exact(8)));
}

#[test]
fn machine_code_direct_call_adds_edge() {
    let mut input = base_input();
    input.symbols = vec![symbol(0, 2, "f"), symbol(4, 2, "g")];
    input.stack_sizes = vec![("f".to_string(), 4), ("g".to_string(), 8)];
    input.defines = vec![
        Define {
            name: "f".to_string(),
            sig: sig_i32(),
            stmts: vec![],
        },
        Define {
            name: "g".to_string(),
            sig: sig_i32(),
            stmts: vec![],
        },
    ];
    input.target = Target::Thumbv6m;
    input.machine = Some(MachineInput {
        sizes: vec![2, 2],
        analyses: vec![
            SymbolAnalysis {
                bls: vec![4],
                bs: vec![],
                indirect: false,
                modifies_sp: true,
                our_stack: Some(4),
            },
            SymbolAnalysis {
                bls: vec![],
                bs: vec![],
                indirect: false,
                modifies_sp: true,
                our_stack: Some(8),
            },
        ],
    });
    let out = analyze(input).unwrap();
    assert!(out.g.edges.contains(&(0, 1)));
    assert_eq!(out.g.nodes[0].max, Some(Max::Exact(12)));
}

#[test]
fn machine_code_at_unknown_address_is_fatal() {
    let mut input = base_input();
    input.symbols = vec![symbol(0, 2, "f")];
    input.stack_sizes = vec![("f".to_string(), 4)];
    input.defines = vec![Define {
        name: "f".to_string(),
        sig: sig_i32(),
        stmts: vec![],
    }];
    input.target = Target::Thumbv6m;
    input.machine = Some(MachineInput {
        sizes: vec![2],
        analyses: vec![SymbolAnalysis {
            bls: vec![100],
            bs: vec![],
            indirect: false,
            modifies_sp: true,
            our_stack: Some(4),
        }],
    });
    let err = analyze(input).unwrap_err();
    assert!(matches!(err, BuildError::NoSymbolAtAddress(100)));
}

#[test]
fn disagreeing_stack_analyses_are_fatal() {
    let mut input = base_input();
    input.symbols = vec![symbol(0, 2, "f")];
    input.stack_sizes = vec![("f".to_string(), 4)];
    input.defines = vec![Define {
        name: "f".to_string(),
        sig: sig_i32(),
        stmts: vec![],
    }];
    input.target = Target::Thumbv6m;
    input.machine = Some(MachineInput {
        sizes: vec![2],
        analyses: vec![SymbolAnalysis {
            bls: vec![],
            bs: vec![],
            indirect: false,
            modifies_sp: false,
            our_stack: Some(8),
        }],
    });
    let err = analyze(input).unwrap_err();
    assert!(matches!(err, BuildError::StackMismatch(_)));
}

#[test]
fn unnamed_bitcast_target_is_fatal() {
    let mut input = base_input();
    input.symbols = vec![symbol(0, 2, "f")];
    input.stack_sizes = vec![("f".to_string(), 4)];
    input.defines = vec![Define {
        name: "f".to_string(),
        sig: sig_i32(),
        stmts: vec![Stmt::BitcastCall(None)],
    }];
    let err = analyze(input).unwrap_err();
    assert!(matches!(err, BuildError::UnnamedBitcastTarget));
}

#[test]
fn unhandled_intrinsic_is_fatal() {
    let mut input = base_input();
    input.symbols = vec![symbol(0, 2, "f")];
    input.stack_sizes = vec![("f".to_string(), 4)];
    input.defines = vec![Define {
        name: "f".to_string(),
        sig: sig_i32(),
        stmts: vec![Stmt::DirectCall("llvm.bogus.intrinsic".to_string())],
    }];
    let err = analyze(input).unwrap_err();
    assert!(matches!(err, BuildError::UnhandledIntrinsic(_)));
}

#[test]
fn unknown_callee_is_fatal() {
    let mut input = base_input();
    input.symbols = vec![symbol(0, 2, "f")];
    input.stack_sizes = vec![("f".to_string(), 4)];
    input.defines = vec![Define {
        name: "f".to_string(),
        sig: sig_i32(),
        stmts: vec![Stmt::DirectCall("nowhere".to_string())],
    }];
    let err = analyze(input).unwrap_err();
    assert!(matches!(err, BuildError::UnknownCallee(_)));
}

#[test]
fn undefined_callee_gains_a_node() {
    let mut input = base_input();
    input.symbols = vec![symbol(0, 2, "f")];
    input.stack_sizes = vec![("f".to_string(), 4)];
    input.undefined = vec!["memcpy@@GLIBC_2.14".to_string()];
    input.defines = vec![Define {
        name: "f".to_string(),
        sig: sig_i32(),
        stmts: vec![Stmt::DirectCall("memcpy".to_string())],
    }];
    let out = analyze(input).unwrap();
    assert_eq!(out.g.nodes.len(), 2);
    assert_eq!(out.g.nodes[1].name, "memcpy");
    assert_eq!(out.g.nodes[1].local, Local::Unknown);
    assert!(out.g.edges.contains(&(0, 1)));
    assert_eq!(out.g.nodes[0].max, Some(Max::LowerBound(4)));
}

#[test]
fn marker_only_symbol_has_no_canonical_name() {
    let mut input = base_input();
    input.symbols = vec![DefinedSymbol {
        address: 0,
        size: 2,
        names: vec!["$a".to_string(), "$a.1".to_string()],
    }];
    let err = analyze(input).unwrap_err();
    assert!(matches!(err, BuildError::MissingCanonical));
}

#[test]
fn declared_symbols_join_the_indirect_candidates() {
    // a symbol with a declaration only still answers indirect calls
    let mut input = base_input();
    input.symbols = vec![symbol(0, 2, "f"), symbol(4, 2, "h")];
    input.stack_sizes = vec![("f".to_string(), 4), ("h".to_string(), 2)];
    input.declares = vec![Declare {
        name: "f".to_string(),
        sig: Some(sig_i32()),
    }];
    input.defines = vec![Define {
        name: "h".to_string(),
        sig: FnSig {
            inputs: vec![],
            output: None,
        },
        stmts: vec![Stmt::IndirectCall(sig_i32())],
    }];
    let out = analyze(input).unwrap();
    let fic: Vec<usize> = (0..out.g.nodes.len())
        .filter(|v| out.g.nodes[*v].dashed)
        .collect();
    assert_eq!(fic.len(), 1);
    assert!(out.g.edges.contains(&(fic[0], 0)));
    assert_eq!(out.g.nodes[1].max, Some(Max::Exact(6)));
}

#[test]
fn no_stack_information_leaves_the_graph_unsolved() {
    let mut input = base_input();
    input.symbols = vec![symbol(0, 2, "f")];
    input.defines = vec![Define {
        name: "f".to_string(),
        sig: sig_i32(),
        stmts: vec![],
    }];
    let out = analyze(input).unwrap();
    assert!(!out.solved);
    assert_eq!(out.g.nodes[0].max, None);
}

fn formatter_sig(receiver: &str) -> FnSig {
    FnSig {
        inputs: vec![
            Type::Pointer(Box::new(Type::Alias(receiver.to_string()))),
            Type::Pointer(Box::new(Type::Alias("core::fmt::Formatter".to_string()))),
        ],
        output: Some(Box::new(Type::Integer(1))),
    }
}

#[test]
fn formatter_dispatch_is_canonicalized() {
    // the receiver alias of the formatter shape varies across builds: the
    // call site names one spelling, the candidates another, yet the call
    // still reaches the whole formatter set
    let mut input = base_input();
    input.symbols = vec![symbol(0, 2, "f1"), symbol(4, 2, "f2"), symbol(8, 2, "h")];
    input.stack_sizes = vec![
        ("f1".to_string(), 4),
        ("f2".to_string(), 12),
        ("h".to_string(), 2),
    ];
    input.defines = vec![
        Define {
            name: "f1".to_string(),
            sig: formatter_sig("A"),
            stmts: vec![],
        },
        Define {
            name: "f2".to_string(),
            sig: formatter_sig("B"),
            stmts: vec![],
        },
        Define {
            name: "h".to_string(),
            sig: FnSig {
                inputs: vec![],
                output: None,
            },
            stmts: vec![Stmt::IndirectCall(formatter_sig("core::fmt::Void.3"))],
        },
    ];
    let out = analyze(input).unwrap();
    let fic: Vec<usize> = (0..out.g.nodes.len())
        .filter(|v| out.g.nodes[*v].dashed && out.g.edges.contains(&(2, *v)))
        .collect();
    assert_eq!(fic.len(), 1);
    let call = fic[0];
    assert!(out.g.edges.contains(&(call, 0)));
    assert!(out.g.edges.contains(&(call, 1)));
    // the label carries the canonical erased-void alias
    assert!(out.g.nodes[call].name.contains("%fmt::Void"));
    assert_eq!(out.g.nodes[2].max, Some(Max::Exact(14)));
}

#[test]
fn dynamic_dispatch_erases_the_receiver() {
    let method = "<a::A as b::B>::m::h0123456789abcdef";
    let mut input = base_input();
    input.symbols = vec![symbol(0, 2, method), symbol(4, 2, "h")];
    input.stack_sizes = vec![(method.to_string(), 24), ("h".to_string(), 2)];
    input.defines = vec![
        Define {
            name: method.to_string(),
            sig: FnSig {
                inputs: vec![
                    Type::Pointer(Box::new(Type::Alias("a::A".to_string()))),
                    Type::Integer(32),
                ],
                output: None,
            },
            stmts: vec![],
        },
        Define {
            name: "h".to_string(),
            sig: FnSig {
                inputs: vec![],
                output: None,
            },
            stmts: vec![Stmt::IndirectCall(FnSig {
                inputs: vec![Type::Erased, Type::Integer(32)],
                output: None,
            })],
        },
    ];
    let out = analyze(input).unwrap();
    let fic: Vec<usize> = (0..out.g.nodes.len())
        .filter(|v| out.g.nodes[*v].dashed)
        .collect();
    assert_eq!(fic.len(), 1);
    let call = fic[0];
    assert!(out.g.edges.contains(&(1, call)));
    assert!(out.g.edges.contains(&(call, 0)));
    assert_eq!(out.g.nodes[1].max, Some(Max::Exact(26)));
}
