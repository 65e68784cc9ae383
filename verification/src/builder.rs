//! The call-graph builder: fuses symbols, per-symbol stack usage, typed
//! items, and machine-code findings into one directed graph.
use vstd::prelude::*;
use crate::demangle::{demangle, demangled_of};
use crate::graph::{Graph, Node};
use crate::usage::Local;
use crate::ir::{Type, FnSig, type_equal, sig_equal};
use crate::strings::{
    dec_seq,
    find_from,
    has_hash_suffix,
    starts_with,
    starts_with_seq,
    str_eq,
    strip_hash,
    u64_dec,
    dehash,
    find_str,
};

verus! {

/// Whether a signature has the formatter shape: two pointer parameters, the
/// second to the formatter alias, returning a one-bit integer.
pub open spec fn spec_is_formatter_sig(sig: FnSig) -> bool {
    &&& sig.inputs.len() == 2
    &&& sig.inputs[0] is Pointer
    &&& (sig.inputs[1] matches Type::Pointer(f) && (*f matches Type::Alias(a) && a@
        == "core::fmt::Formatter"@))
    &&& (sig.output matches Some(o) && (*o matches Type::Integer(w) && w == 1))
}

/// Decides whether a signature has the formatter shape.
pub fn is_formatter_sig(sig: &FnSig) -> (r: bool)
    ensures
        r == spec_is_formatter_sig(*sig),
{
    if sig.inputs.len() != 2 {
        return false;
    }
    let first_ok = match &sig.inputs[0] {
        Type::Pointer(_) => true,
        _ => false,
    };
    let second_ok = match &sig.inputs[1] {
        Type::Pointer(f) => match &**f {
            Type::Alias(a) => str_eq(a.as_str(), "core::fmt::Formatter"),
            _ => false,
        },
        _ => false,
    };
    let out_ok = match &sig.output {
        Some(o) => match &**o {
            Type::Integer(w) => *w == 1,
            _ => false,
        },
        None => false,
    };
    first_ok && second_ok && out_ok
}

/// The alias name of the receiver when a formatter-shaped signature points at
/// a named type.
pub open spec fn spec_void_candidate(sig: FnSig) -> Option<Seq<char>> {
    if spec_is_formatter_sig(sig) {
        match sig.inputs[0] {
            Type::Pointer(r) => match *r {
                Type::Alias(a) => Some(a@),
                _ => None,
            },
            _ => None,
        }
    } else {
        None
    }
}

/// Extracts the receiver alias of a formatter-shaped signature.
pub fn void_candidate(sig: &FnSig) -> (r: Option<String>)
    ensures
        r matches Some(a) ==> spec_void_candidate(*sig) == Some(a@),
        r is None ==> spec_void_candidate(*sig) is None,
{
    if !is_formatter_sig(sig) {
        return None;
    }
    match &sig.inputs[0] {
        Type::Pointer(recv) => match &**recv {
            Type::Alias(a) => Some(a.clone()),
            _ => None,
        },
        _ => None,
    }
}

/// The first index at or after `from` whose candidate equals the erased-void
/// literal.
pub open spec fn first_exact_void(cands: Seq<String>, from: int) -> Option<int>
    decreases cands.len() - from,
{
    if from < 0 || from >= cands.len() {
        None
    } else if cands[from]@ == "fmt::Void"@ {
        Some(from)
    } else {
        first_exact_void(cands, from + 1)
    }
}

/// The first index at or after `from` whose candidate starts with the core
/// erased-void prefix.
pub open spec fn first_core_void(cands: Seq<String>, from: int) -> Option<int>
    decreases cands.len() - from,
{
    if from < 0 || from >= cands.len() {
        None
    } else if starts_with_seq(cands[from]@, "core::fmt::Void"@) {
        Some(from)
    } else {
        first_core_void(cands, from + 1)
    }
}

/// The canonical erased-void alias chosen from the candidate list: the
/// literal `fmt::Void` when present, else the first candidate starting with
/// `core::fmt::Void`, else the sole candidate when there is exactly one.
pub open spec fn spec_choose_void(cands: Seq<String>) -> Option<Seq<char>> {
    if first_exact_void(cands, 0) is Some {
        Some("fmt::Void"@)
    } else {
        match first_core_void(cands, 0) {
            Some(i) => Some(cands[i]@),
            None => if cands.len() == 1 {
                Some(cands[0]@)
            } else {
                None
            },
        }
    }
}

/// Chooses the canonical erased-void alias. Given the same candidate
/// sequence the same alias comes out: the choice is a function of the list.
pub fn choose_void(cands: &Vec<String>) -> (r: Option<String>)
    ensures
        r matches Some(a) ==> spec_choose_void(cands@) == Some(a@),
        r is None ==> spec_choose_void(cands@) is None,
{
    let mut i: usize = 0;
    while i < cands.len()
        invariant
            0 <= i <= cands@.len(),
            first_exact_void(cands@, 0) == first_exact_void(cands@, i as int),
        decreases cands@.len() - i,
    {
        if str_eq(cands[i].as_str(), "fmt::Void") {
            proof {
                assert(cands@[i as int]@ =~= "fmt::Void"@);
            }
            return Some(String::from_str("fmt::Void"));
        }
        proof {
            assert(cands@[i as int]@ != "fmt::Void"@);
        }
        i = i + 1;
    }
    let mut j: usize = 0;
    while j < cands.len()
        invariant
            0 <= j <= cands@.len(),
            first_exact_void(cands@, 0) is None,
            first_core_void(cands@, 0) == first_core_void(cands@, j as int),
        decreases cands@.len() - j,
    {
        if starts_with(cands[j].as_str(), "core::fmt::Void") {
            return Some(cands[j].clone());
        }
        j = j + 1;
    }
    if cands.len() == 1 {
        Some(cands[0].clone())
    } else {
        None
    }
}

/// The canonical choice is a function of the candidate sequence: equal
/// sequences always yield the same alias.
pub proof fn lemma_choose_void_deterministic(a: Seq<String>, b: Seq<String>)
    requires
        a =~= b,
    ensures
        spec_choose_void(a) == spec_choose_void(b),
{
}

/// How a direct callee is treated when edges are added.
#[derive(Clone, Copy, PartialEq, Eq, Structural, Debug)]
pub enum CallKind {
    /// Debug information, compiler hints, or a trap: no edge.
    Skip,
    /// A Thumb target resolves remaining intrinsics from machine code.
    Deferred,
    /// A copy intrinsic: edges to the copy symbols present in the graph.
    Memcpy,
    /// A set or move intrinsic: edges to the set and clear symbols present.
    Memset,
    /// An intrinsic assumed to lower to machine instructions: no edge.
    MachineCode,
    /// An unhandled intrinsic: the input is rejected.
    Invalid,
    /// A plain symbol: one edge to its node.
    Ordinary,
}

/// How a direct call to `f` is classified, following the intrinsic tables.
pub open spec fn spec_classify_call(f: Seq<char>, thumb: bool) -> CallKind {
    if f == "llvm.dbg.value"@ || f == "llvm.dbg.declare"@ || f == "llvm.assume"@ || f
        == "llvm.trap"@ {
        CallKind::Skip
    } else if starts_with_seq(f, "llvm.lifetime.start"@) || starts_with_seq(
        f,
        "llvm.lifetime.end"@,
    ) {
        CallKind::Skip
    } else if thumb && starts_with_seq(f, "llvm."@) {
        CallKind::Deferred
    } else if starts_with_seq(f, "llvm.memcpy."@) {
        CallKind::Memcpy
    } else if starts_with_seq(f, "llvm.memset."@) || starts_with_seq(f, "llvm.memmove."@) {
        CallKind::Memset
    } else if starts_with_seq(f, "llvm.bswap."@) || starts_with_seq(f, "llvm.ctlz."@)
        || starts_with_seq(f, "llvm.cttz."@) || starts_with_seq(f, "llvm.sadd.with.overflow."@)
        || starts_with_seq(f, "llvm.smul.with.overflow."@) || starts_with_seq(
        f,
        "llvm.ssub.with.overflow."@,
    ) || starts_with_seq(f, "llvm.uadd.with.overflow."@) || starts_with_seq(
        f,
        "llvm.umul.with.overflow."@,
    ) || starts_with_seq(f, "llvm.usub.sat."@) || starts_with_seq(f, "llvm.usub.with.overflow."@)
        || starts_with_seq(f, "llvm.x86.sse2.pmovmskb."@) {
        CallKind::MachineCode
    } else if starts_with_seq(f, "llvm."@) {
        CallKind::Invalid
    } else {
        CallKind::Ordinary
    }
}

/// Classifies a direct callee name.
pub fn classify_call(f: &str, thumb: bool) -> (r: CallKind)
    ensures
        r == spec_classify_call(f@, thumb),
{
    if str_eq(f, "llvm.dbg.value") || str_eq(f, "llvm.dbg.declare") || str_eq(f, "llvm.assume")
        || str_eq(f, "llvm.trap") {
        return CallKind::Skip;
    }
    if starts_with(f, "llvm.lifetime.start") || starts_with(f, "llvm.lifetime.end") {
        return CallKind::Skip;
    }
    if thumb && starts_with(f, "llvm.") {
        return CallKind::Deferred;
    }
    if starts_with(f, "llvm.memcpy.") {
        return CallKind::Memcpy;
    }
    if starts_with(f, "llvm.memset.") || starts_with(f, "llvm.memmove.") {
        return CallKind::Memset;
    }
    if starts_with(f, "llvm.bswap.") || starts_with(f, "llvm.ctlz.") || starts_with(f, "llvm.cttz.")
        || starts_with(f, "llvm.sadd.with.overflow.") || starts_with(f, "llvm.smul.with.overflow.")
        || starts_with(f, "llvm.ssub.with.overflow.") || starts_with(f, "llvm.uadd.with.overflow.")
        || starts_with(f, "llvm.umul.with.overflow.") || starts_with(f, "llvm.usub.sat.")
        || starts_with(f, "llvm.usub.with.overflow.") || starts_with(f, "llvm.x86.sse2.pmovmskb.") {
        return CallKind::MachineCode;
    }
    if starts_with(f, "llvm.") {
        return CallKind::Invalid;
    }
    CallKind::Ordinary
}

/// The default-methods key hidden in a demangled trait-impl name
/// `<Type as Trait>::method::hHASH`: the trait path joined to the method
/// name, or nothing when the name has another shape.
pub open spec fn spec_trait_method_key(d: Seq<char>) -> Option<Seq<char>> {
    if d.len() < 1 || d[0] != '<' {
        None
    } else {
        match find_from(d, " as "@, 0) {
            None => None,
            Some(i) => {
                let rhs = d.subrange(i + 4, d.len() as int);
                match find_from(rhs, ">::"@, 0) {
                    None => None,
                    Some(j) => {
                        let trait_path = rhs.subrange(0, j);
                        let rest = rhs.subrange(j + 3, rhs.len() as int);
                        if has_hash_suffix(rest) {
                            Some(trait_path + "::"@ + strip_hash(rest))
                        } else {
                            None
                        }
                    },
                }
            },
        }
    }
}

/// Extracts the default-methods key from a demangled name.
pub fn trait_method_key(d: &str) -> (r: Option<String>)
    ensures
        r matches Some(t) ==> spec_trait_method_key(d@) == Some(t@),
        r is None ==> spec_trait_method_key(d@) is None,
{
    let n = d.unicode_len();
    if n < 1 || d.get_char(0) != '<' {
        return None;
    }
    proof {
        reveal_strlit(" as ");
        reveal_strlit(">::");
        reveal_strlit("::");
    }
    match find_str(d, " as ") {
        None => None,
        Some(i) => {
            proof {
                crate::strings::lemma_find_from(d@, " as "@, 0);
            }
            let rhs = d.substring_char(i + 4, n);
            match find_str(rhs, ">::") {
                None => None,
                Some(j) => {
                    proof {
                        crate::strings::lemma_find_from(rhs@, ">::"@, 0);
                    }
                    let rn = rhs.unicode_len();
                    let trait_path = rhs.substring_char(0, j);
                    let rest = rhs.substring_char(j + 3, rn);
                    match dehash(rest) {
                        None => None,
                        Some(method) => {
                            let out = String::from_str(trait_path).concat("::").concat(method);
                            proof {
                                assert(out@ =~= rhs@.subrange(0, j as int) + "::"@ + strip_hash(
                                    rhs@.subrange(j + 3, rhs@.len() as int),
                                ));
                            }
                            Some(out)
                        },
                    }
                },
            }
        },
    }
}

/// Whether this entry is the trait-and-method key of one of the defines.
pub open spec fn key_of_some_define(entry: String, defines: Seq<crate::ir::Define>) -> bool {
    exists|q: int|
        0 <= q < defines.len() && Some(entry@) == spec_trait_method_key(
            demangled_of((#[trigger] defines[q]).name@),
        )
}

/// Whether the list holds a string with these characters.
pub open spec fn contains_string(v: Seq<String>, s: Seq<char>) -> bool {
    exists|i: int| 0 <= i < v.len() && v[i]@ == s
}

/// Decides membership of a name in a list of names.
pub fn contains_name(v: &Vec<String>, s: &str) -> (r: bool)
    ensures
        r == contains_string(v@, s@),
{
    let mut i: usize = 0;
    while i < v.len()
        invariant
            0 <= i <= v@.len(),
            forall|p: int| 0 <= p < i ==> v@[p]@ != s@,
        decreases v@.len() - i,
    {
        if str_eq(v[i].as_str(), s) {
            assert(contains_string(v@, s@)) by {
                assert(v@[i as int]@ == s@);
            }
            return true;
        }
        i = i + 1;
    }
    false
}

/// The rendering of a type expression: integers as `iW`, pointers with a
/// trailing `*`, named aliases with a `%` sigil, function types with their
/// signature, and the erased receiver as `_`.
pub open spec fn type_str(t: Type) -> Seq<char>
    decreases t, 1int, 0int,
{
    match t {
        Type::Integer(w) => seq!['i'] + dec_seq(w as int),
        Type::Pointer(p) => type_str(*p) + seq!['*'],
        Type::Fn(sig) => sig_str(*sig),
        Type::Alias(a) => seq!['%'] + a@,
        Type::Erased => seq!['_'],
    }
}

/// The rendering of the parameter list from index `i` on.
pub open spec fn inputs_str(sig: FnSig, i: int) -> Seq<char>
    decreases sig, 0int, sig.inputs.len() - i,
{
    let inputs = sig.inputs@;
    if i < 0 || i >= inputs.len() {
        Seq::empty()
    } else if i == inputs.len() - 1 {
        type_str(inputs[i])
    } else {
        type_str(inputs[i]) + ", "@ + inputs_str(sig, i + 1)
    }
}

/// The rendering of a signature: `fn(` parameters `)`, then ` -> ` and the
/// return type when there is one.
pub open spec fn sig_str(sig: FnSig) -> Seq<char>
    decreases sig, 1int, 0int,
{
    let head = "fn("@ + inputs_str(sig, 0) + ")"@;
    match sig.output {
        Some(o) => head + " -> "@ + type_str(*o),
        None => head,
    }
}

/// Renders one type expression.
pub fn type_to_string(t: &Type) -> (r: String)
    ensures
        r@ == type_str(*t),
    decreases *t,
{
    match t {
        Type::Integer(w) => {
            let digits = u64_dec(*w as u64);
            let out = String::from_str("i").concat(digits.as_str());
            proof {
                reveal_strlit("i");
                assert(out@ =~= seq!['i'] + dec_seq(*w as int));
            }
            out
        },
        Type::Pointer(p) => {
            let inner = type_to_string(p);
            let out = inner.concat("*");
            proof {
                reveal_strlit("*");
                assert(out@ =~= type_str(**p) + seq!['*']);
            }
            out
        },
        Type::Fn(sig) => sig_to_string(sig),
        Type::Alias(a) => {
            let out = String::from_str("%").concat(a.as_str());
            proof {
                reveal_strlit("%");
                assert(out@ =~= seq!['%'] + a@);
            }
            out
        },
        Type::Erased => {
            let out = String::from_str("_");
            proof {
                reveal_strlit("_");
                assert(out@ =~= seq!['_']);
            }
            out
        },
    }
}

/// Renders a signature.
pub fn sig_to_string(sig: &FnSig) -> (r: String)
    ensures
        r@ == sig_str(*sig),
    decreases *sig,
{
    let mut out = String::from_str("fn(");
    let n = sig.inputs.len();
    let mut i: usize = 0;
    proof {
        assert(out@ + inputs_str(*sig, 0) =~= "fn("@ + inputs_str(*sig, 0));
    }
    while i < n
        invariant
            0 <= i <= n,
            n == sig.inputs@.len(),
            out@ + inputs_str(*sig, i as int) == "fn("@ + inputs_str(*sig, 0),
        decreases n - i,
    {
        let ghost out0 = out@;
        proof {
            assert(sig.inputs@[i as int] == sig.inputs[i as int]);
            lemma_inputs_str_step(*sig, i as int);
        }
        let piece = type_to_string(&sig.inputs[i]);
        out.append(piece.as_str());
        if i + 1 < n {
            out.append(", ");
            proof {
                assert(out@ + inputs_str(*sig, i + 1) =~= out0 + inputs_str(*sig, i as int));
            }
        } else {
            proof {
                assert(inputs_str(*sig, i + 1) =~= Seq::<char>::empty());
                assert(out@ + inputs_str(*sig, i + 1) =~= out0 + inputs_str(*sig, i as int));
            }
        }
        i = i + 1;
    }
    proof {
        assert(inputs_str(*sig, n as int) =~= Seq::<char>::empty());
        assert(out@ + inputs_str(*sig, n as int) =~= out@);
        assert(out@ =~= "fn("@ + inputs_str(*sig, 0));
    }
    out.append(")");
    match &sig.output {
        Some(o) => {
            out.append(" -> ");
            let ret = type_to_string(o);
            out.append(ret.as_str());
            proof {
                assert(out@ =~= sig_str(*sig));
            }
            out
        },
        None => {
            proof {
                assert(out@ =~= sig_str(*sig));
            }
            out
        },
    }
}

/// Rendering the tail of the parameter list prepends one rendered parameter.
proof fn lemma_inputs_str_step(sig: FnSig, i: int)
    requires
        0 <= i < sig.inputs@.len(),
    ensures
        inputs_str(sig, i) == (if i == sig.inputs@.len() - 1 {
            type_str(sig.inputs@[i])
        } else {
            type_str(sig.inputs@[i]) + ", "@ + inputs_str(sig, i + 1)
        }),
        inputs_str(sig, i).len() >= inputs_str(sig, i + 1).len(),
{
    if i < sig.inputs@.len() - 1 {
        assert(inputs_str(sig, i) == type_str(sig.inputs@[i]) + ", "@ + inputs_str(sig, i + 1));
    } else {
        assert(inputs_str(sig, i + 1) =~= Seq::<char>::empty());
    }
}

impl Type {
    /// A structurally equal copy of a type expression.
    pub fn deep_clone(&self) -> (r: Type)
        ensures
            type_equal(r, *self),
        decreases *self,
    {
        match self {
            Type::Integer(w) => Type::Integer(*w),
            Type::Pointer(p) => Type::Pointer(Box::new(p.deep_clone())),
            Type::Fn(sig) => Type::Fn(Box::new(sig.deep_clone())),
            Type::Alias(a) => Type::Alias(a.clone()),
            Type::Erased => Type::Erased,
        }
    }
}

impl FnSig {
    /// A structurally equal copy of a signature.
    pub fn deep_clone(&self) -> (r: FnSig)
        ensures
            sig_equal(r, *self),
        decreases *self,
    {
        let mut inputs: Vec<Type> = Vec::new();
        let n = self.inputs.len();
        let mut i: usize = 0;
        while i < n
            invariant
                0 <= i <= n,
                n == self.inputs@.len(),
                inputs@.len() == i,
                forall|j: int| 0 <= j < i ==> type_equal(#[trigger] inputs@[j], self.inputs@[j]),
            decreases n - i,
        {
            inputs.push(self.inputs[i].deep_clone());
            i = i + 1;
        }
        let output = match &self.output {
            Some(o) => Some(Box::new(o.deep_clone())),
            None => None,
        };
        FnSig { inputs, output }
    }

    /// The signature with its receiver erased: the first parameter replaced
    /// by the erased marker, the rest structurally kept.
    pub fn erased_receiver(&self) -> (r: FnSig)
        requires
            self.inputs@.len() >= 1,
        ensures
            r.inputs@.len() == self.inputs@.len(),
            r.inputs@[0] is Erased,
            forall|j: int|
                1 <= j < self.inputs@.len() ==> type_equal(#[trigger] r.inputs@[j], self.inputs@[j]),
            match self.output {
                Some(o) => r.output matches Some(o2) && type_equal(*o2, *o),
                None => r.output is None,
            },
    {
        let mut r = self.deep_clone();
        r.inputs[0] = Type::Erased;
        r
    }
}

/// A dispatch bucket: the functions a call through one signature might
/// reach, the functions making such a call, and whether such a call occurs.
pub struct Bucket {
    pub called: bool,
    pub callers: Vec<usize>,
    pub callees: Vec<usize>,
}

/// What the machine-code analyzer reports for one symbol: offsets of direct
/// calls with link, offsets of branches, whether an unresolved indirect call
/// occurs, whether the stack pointer is provably modified, and the exact
/// local stack usage when decidable.
#[derive(Debug)]
pub struct SymbolAnalysis {
    pub bls: Vec<i32>,
    pub bs: Vec<i32>,
    pub indirect: bool,
    pub modifies_sp: bool,
    pub our_stack: Option<u64>,
}

/// A fatal fault of graph construction: a bug in the inputs or an invariant
/// violation, reported once.
#[derive(Debug)]
pub enum BuildError {
    /// A call through a cast of an unnamed symbol reference.
    UnnamedBitcastTarget,
    /// An intrinsic name no rule covers.
    UnhandledIntrinsic(String),
    /// A direct callee that is neither defined, aliased, nor undefined.
    UnknownCallee(String),
    /// Machine code calls an address bearing no symbol.
    NoSymbolAtAddress(u64),
    /// The analyzer and the compiler disagree on a symbol's local stack.
    StackMismatch(String),
    /// A symbol without names, or none that can stand as canonical.
    MissingCanonical,
}

impl BuildError {
    /// A short description of the fault.
    pub fn message(&self) -> (r: String)
        ensures
            r@ == (match *self {
                BuildError::UnnamedBitcastTarget => "an unnamed symbol reference is being invoked"@,
                BuildError::UnhandledIntrinsic(ref name) => "unhandled intrinsic: "@ + name@,
                BuildError::UnknownCallee(ref name) => "unknown callee: "@ + name@,
                BuildError::NoSymbolAtAddress(addr) => "no symbol at address "@ + crate::strings::dec_seq(
                    addr as int,
                ),
                BuildError::StackMismatch(ref name) => "local stack usage disagrees with the machine code for: "@
                    + name@,
                BuildError::MissingCanonical => "a defined symbol offers no canonical name"@,
            }),
    {
        match self {
            BuildError::UnnamedBitcastTarget => String::from_str(
                "an unnamed symbol reference is being invoked",
            ),
            BuildError::UnhandledIntrinsic(name) => String::from_str(
                "unhandled intrinsic: ",
            ).concat(name.as_str()),
            BuildError::UnknownCallee(name) => String::from_str("unknown callee: ").concat(
                name.as_str(),
            ),
            BuildError::NoSymbolAtAddress(addr) => {
                let d = u64_dec(*addr);
                String::from_str("no symbol at address ").concat(d.as_str())
            },
            BuildError::StackMismatch(name) => String::from_str(
                "local stack usage disagrees with the machine code for: ",
            ).concat(name.as_str()),
            BuildError::MissingCanonical => String::from_str(
                "a defined symbol offers no canonical name",
            ),
        }
    }
}

/// A node resolved among the first symbols stays resolved among more.
proof fn lemma_resolved_mono(
    aliases: Seq<(String, String)>,
    indices: Seq<(String, usize)>,
    symbols: Seq<crate::symbols::DefinedSymbol>,
    u1: int,
    u2: int,
    v: usize,
)
    requires
        u1 <= u2,
        resolved_before(aliases, indices, symbols, u1, v),
    ensures
        resolved_before(aliases, indices, symbols, u2, v),
{
    let sp = choose|sp: int|
        0 <= sp < u1 && #[trigger] symbol_caller(aliases, indices, symbols[sp]) == Some(v);
}

/// When graph construction stops inside one symbol, every node not resolved
/// by any symbol still holds its pre-phase local value.
proof fn reconcile_err_untouched(
    aliases: Seq<(String, String)>,
    indices: Seq<(String, usize)>,
    symbols: Seq<crate::symbols::DefinedSymbol>,
    nodes0: Seq<Node>,
    nodes: Seq<Node>,
    s: int,
    ns: int,
    caller: usize,
)
    requires
        0 <= s < ns,
        ns == symbols.len(),
        symbol_caller(aliases, indices, symbols[s]) == Some(caller),
        forall|v: usize|
            v < nodes0.len() && !resolved_before(aliases, indices, symbols, s, v) && v != caller
                ==> (#[trigger] nodes[v as int]).local == nodes0[v as int].local,
    ensures
        forall|v: usize|
            v < nodes0.len() && !resolved_before(aliases, indices, symbols, ns, v)
                ==> (#[trigger] nodes[v as int]).local == nodes0[v as int].local,
{
    assert forall|v: usize|
        v < nodes0.len() && !resolved_before(aliases, indices, symbols, ns, v) implies (
    #[trigger] nodes[v as int]).local == nodes0[v as int].local by {
        if v == caller {
            assert(resolved_before(aliases, indices, symbols, ns, v));
        } else if resolved_before(aliases, indices, symbols, s, v) {
            let sp = choose|sp: int|
                0 <= sp < s && #[trigger] symbol_caller(aliases, indices, symbols[sp]) == Some(v);
            assert(resolved_before(aliases, indices, symbols, ns, v));
        }
    }
}

/// The node a defined symbol's first name resolves to: the canonical name
/// through the alias table, then the index table.
pub open spec fn symbol_caller(
    aliases: Seq<(String, String)>,
    indices: Seq<(String, usize)>,
    sym: crate::symbols::DefinedSymbol,
) -> Option<usize> {
    match alias_of(aliases, sym.names@[0]@, 0) {
        Some(c) => first_index_of(indices, c, 0),
        None => None,
    }
}

/// Whether one of the first `upto` symbols resolves to node `v`.
pub open spec fn resolved_before(
    aliases: Seq<(String, String)>,
    indices: Seq<(String, usize)>,
    symbols: Seq<crate::symbols::DefinedSymbol>,
    upto: int,
    v: usize,
) -> bool {
    exists|sp: int|
        0 <= sp < upto && #[trigger] symbol_caller(aliases, indices, symbols[sp]) == Some(v)
}

/// The canonical name bound to `n`, read from the first matching entry.
pub open spec fn alias_of(aliases: Seq<(String, String)>, n: Seq<char>, from: int) -> Option<
    Seq<char>,
>
    decreases aliases.len() - from,
{
    if from < 0 || from >= aliases.len() {
        None
    } else if aliases[from].0@ == n {
        Some(aliases[from].1@)
    } else {
        alias_of(aliases, n, from + 1)
    }
}

/// Every entry's canonical name is itself bound to itself: looking an alias
/// up twice moves nothing.
pub open spec fn alias_closed(aliases: Seq<(String, String)>) -> bool {
    forall|p: int|
        0 <= p < aliases.len() ==> alias_of(aliases, (#[trigger] aliases[p]).1@, 0) == Some(
            aliases[p].1@,
        )
}

/// What a lookup returns comes from some entry with the searched key.
pub proof fn lemma_alias_of_entry(aliases: Seq<(String, String)>, n: Seq<char>, from: int)
    requires
        alias_of(aliases, n, from) is Some,
    ensures
        exists|p: int|
            from <= p < aliases.len() && (#[trigger] aliases[p]).0@ == n && aliases[p].1@
                == alias_of(aliases, n, from)->Some_0,
    decreases aliases.len() - from,
{
    if 0 <= from < aliases.len() && aliases[from].0@ == n {
        assert(aliases[from].0@ == n && aliases[from].1@ == alias_of(aliases, n, from)->Some_0);
    } else {
        lemma_alias_of_entry(aliases, n, from + 1);
    }
}

/// The alias map resolves every bound name to a canonical name: resolving
/// again changes nothing.
pub proof fn lemma_alias_closure(aliases: Seq<(String, String)>, n: Seq<char>)
    requires
        alias_closed(aliases),
        alias_of(aliases, n, 0) is Some,
    ensures
        alias_of(aliases, alias_of(aliases, n, 0)->Some_0, 0) == alias_of(aliases, n, 0),
{
    lemma_alias_of_entry(aliases, n, 0);
}

/// A lookup that already succeeds is unmoved by entries appended at the end.
pub proof fn lemma_alias_of_extend(
    a: Seq<(String, String)>,
    b: Seq<(String, String)>,
    n: Seq<char>,
    from: int,
)
    requires
        a.len() <= b.len(),
        forall|p: int| 0 <= p < a.len() ==> b[p] == a[p],
        alias_of(a, n, from) is Some,
        from >= 0,
    ensures
        alias_of(b, n, from) == alias_of(a, n, from),
    decreases a.len() - from,
{
    if from < a.len() {
        if a[from].0@ == n {
        } else {
            lemma_alias_of_extend(a, b, n, from + 1);
        }
    }
}

/// A lookup that fails in the old entries continues into the appended ones.
pub proof fn lemma_alias_of_skip(
    a: Seq<(String, String)>,
    b: Seq<(String, String)>,
    n: Seq<char>,
    from: int,
)
    requires
        a.len() <= b.len(),
        forall|p: int| 0 <= p < a.len() ==> b[p] == a[p],
        alias_of(a, n, 0) is None,
        0 <= from <= a.len(),
    ensures
        alias_of(b, n, from) == alias_of(b, n, a.len() as int),
    decreases a.len() - from,
{
    if from < a.len() {
        assert(alias_of(a, n, from) is None) by {
            lemma_alias_of_none(a, n, 0, from);
        }
        assert(a[from].0@ != n);
        lemma_alias_of_skip(a, b, n, from + 1);
    }
}

/// A failed lookup fails from every later starting point.
pub proof fn lemma_alias_of_none(
    a: Seq<(String, String)>,
    n: Seq<char>,
    from: int,
    upto: int,
)
    requires
        alias_of(a, n, from) is None,
        0 <= from <= upto,
    ensures
        alias_of(a, n, upto) is None,
    decreases upto - from,
{
    if from < upto {
        if from < a.len() {
            lemma_alias_of_none(a, n, from + 1, upto);
        } else {
            assert(alias_of(a, n, upto) is None);
        }
    }
}

/// A lookup over entries whose keys all differ from `n` fails.
pub proof fn lemma_alias_of_absent(a: Seq<(String, String)>, n: Seq<char>, from: int)
    requires
        forall|q: int| from <= q < a.len() ==> (#[trigger] a[q]).0@ != n,
    ensures
        alias_of(a, n, from) is None,
    decreases a.len() - from,
{
    if 0 <= from < a.len() {
        lemma_alias_of_absent(a, n, from + 1);
    }
}

/// Looks a name up in the alias table.
pub fn alias_lookup(aliases: &Vec<(String, String)>, n: &str) -> (r: Option<usize>)
    ensures
        r matches Some(p) ==> p < aliases@.len() && aliases@[p as int].0@ == n@ && alias_of(
            aliases@,
            n@,
            0,
        ) == Some(aliases@[p as int].1@),
        r is None ==> alias_of(aliases@, n@, 0) is None,
{
    let mut i: usize = 0;
    while i < aliases.len()
        invariant
            0 <= i <= aliases@.len(),
            alias_of(aliases@, n@, 0) == alias_of(aliases@, n@, i as int),
        decreases aliases@.len() - i,
    {
        if str_eq(aliases[i].0.as_str(), n) {
            return Some(i);
        }
        i = i + 1;
    }
    None
}

/// No symbol name appears at two different addresses.
pub open spec fn names_disjoint(symbols: Seq<crate::symbols::DefinedSymbol>) -> bool {
    forall|s1: int, s2: int, i1: int, i2: int|
        0 <= s1 < symbols.len() && 0 <= s2 < symbols.len() && s1 != s2 && 0 <= i1
            < symbols[s1].names@.len() && 0 <= i2 < symbols[s2].names@.len() ==> (
        #[trigger] symbols[s1].names@[i1])@ != (#[trigger] symbols[s2].names@[i2])@
}

/// The canonical name of symbol `p`, as `spec_canonical_index` chooses it.
pub open spec fn canon_view(
    symbols: Seq<crate::symbols::DefinedSymbol>,
    stack: Seq<(String, u64)>,
    p: int,
) -> Seq<char> {
    symbols[p].names@[crate::symbols::spec_canonical_index(
        symbols[p].names@,
        stack,
    )->Some_0]@
}

/// Whether any of the first `upto` symbols has a stack-table entry under
/// its canonical name.
pub open spec fn any_stack_entry(
    symbols: Seq<crate::symbols::DefinedSymbol>,
    stack: Seq<(String, u64)>,
    upto: int,
) -> bool {
    exists|p: int|
        #![trigger symbols[p]]
        0 <= p < upto && crate::symbols::lookup(stack, canon_view(symbols, stack, p)) is Some
}

/// Every symbol offers a canonical name.
pub open spec fn all_canonical(
    symbols: Seq<crate::symbols::DefinedSymbol>,
    stack: Seq<(String, u64)>,
) -> bool {
    forall|p: int|
        0 <= p < symbols.len() ==> crate::symbols::spec_canonical_index(
            (#[trigger] symbols[p]).names@,
            stack,
        ) is Some
}

/// A lookup over entries that all carry the value `c` returns `c` as soon as
/// the key occurs among them.
proof fn lemma_alias_of_block_value(
    a: Seq<(String, String)>,
    key: Seq<char>,
    c: Seq<char>,
    from: int,
)
    requires
        0 <= from <= a.len(),
        forall|q: int| from <= q < a.len() ==> (#[trigger] a[q]).1@ == c,
        exists|q: int| from <= q < a.len() && (#[trigger] a[q]).0@ == key,
    ensures
        alias_of(a, key, from) == Some(c),
    decreases a.len() - from,
{
    if a[from].0@ == key {
    } else {
        let q = choose|q: int| from <= q < a.len() && (#[trigger] a[q]).0@ == key;
        lemma_alias_of_block_value(a, key, c, from + 1);
    }
}

/// Finds the typed item for a name; on (unexpected) duplicates the later
/// item overrides the earlier one.
fn find_define_by_name(defines: &Vec<crate::ir::Define>, name: &str) -> (r: Option<usize>)
    ensures
        r matches Some(d) ==> d < defines@.len() && defines@[d as int].name@ == name@ && forall|
            q: int,
        | d < q < defines@.len() ==> (#[trigger] defines@[q]).name@ != name@,
        r is None ==> forall|d: int| 0 <= d < defines@.len() ==> (#[trigger] defines@[d]).name@ != name@,
{
    let mut d: usize = defines.len();
    while d > 0
        invariant
            0 <= d <= defines@.len(),
            forall|q: int| d <= q < defines@.len() ==> (#[trigger] defines@[q]).name@ != name@,
        decreases d,
    {
        d = d - 1;
        if str_eq(defines[d].name.as_str(), name) {
            return Some(d);
        }
    }
    None
}

/// Finds the declaration for a name; on (unexpected) duplicates the later
/// item overrides the earlier one.
fn find_declare_by_name(declares: &Vec<crate::ir::Declare>, name: &str) -> (r: Option<usize>)
    ensures
        r matches Some(d) ==> d < declares@.len() && declares@[d as int].name@ == name@ && forall|
            q: int,
        | d < q < declares@.len() ==> (#[trigger] declares@[q]).name@ != name@,
        r is None ==> forall|d: int| 0 <= d < declares@.len() ==> (#[trigger] declares@[d]).name@ != name@,
{
    let mut d: usize = declares.len();
    while d > 0
        invariant
            0 <= d <= declares@.len(),
            forall|q: int| d <= q < declares@.len() ==> (#[trigger] declares@[q]).name@ != name@,
        decreases d,
    {
        d = d - 1;
        if str_eq(declares[d].name.as_str(), name) {
            return Some(d);
        }
    }
    None
}

fn vec_contains_usize(v: &Vec<usize>, x: usize) -> (r: bool)
    ensures
        r == v@.contains(x),
{
    let mut i: usize = 0;
    while i < v.len()
        invariant
            0 <= i <= v@.len(),
            forall|q: int| 0 <= q < i ==> v@[q] != x,
        decreases v@.len() - i,
    {
        if v[i] == x {
            assert(v@.contains(x)) by {
                assert(v@[i as int] == x);
            }
            return true;
        }
        i = i + 1;
    }
    false
}

/// Adds `callee` to the bucket keyed by a signature structurally equal to
/// `sig`, making a new bucket when none matches.
fn bucket_push_callee(buckets: &mut Vec<(FnSig, Bucket)>, sig: FnSig, callee: usize)
    ensures
        final(buckets)@.len() >= old(buckets)@.len(),
        forall|b: int|
            0 <= b < old(buckets)@.len() ==> {
                &&& (#[trigger] final(buckets)@[b]).0 == old(buckets)@[b].0
                &&& final(buckets)@[b].1.called == old(buckets)@[b].1.called
                &&& final(buckets)@[b].1.callers == old(buckets)@[b].1.callers
            },
        forall|b: int, j: int|
            0 <= b < final(buckets)@.len() && 0 <= j < (#[trigger] final(buckets)@[b]).1.callees@.len()
                ==> ((#[trigger] final(buckets)@[b].1.callees@[j]) == callee || (b < old(
                buckets,
            )@.len() && old(buckets)@[b].1.callees@.contains(final(buckets)@[b].1.callees@[j]))),
        forall|b: int, j: int|
            0 <= b < final(buckets)@.len() && 0 <= j < (#[trigger] final(buckets)@[b]).1.callers@.len()
                ==> (b < old(buckets)@.len() && old(buckets)@[b].1.callers@.contains(
                (#[trigger] final(buckets)@[b].1.callers@[j]),
            )),
{
    let n = buckets.len();
    let mut b: usize = 0;
    while b < n
        invariant
            0 <= b <= n,
            n == buckets@.len(),
            buckets == old(buckets),
        decreases n - b,
    {
        if buckets[b].0.equals(&sig) {
            let ghost before = buckets@;
            buckets[b].1.callees.push(callee);
            proof {
                assert forall|bb: int, j: int|
                    0 <= bb < buckets@.len() && 0 <= j < (#[trigger] buckets@[bb]).1.callees@.len()
                        implies ((#[trigger] buckets@[bb].1.callees@[j]) == callee || (bb
                        < before.len() && before[bb].1.callees@.contains(
                        buckets@[bb].1.callees@[j],
                    ))) by {
                    if bb == b && j < before[bb].1.callees@.len() {
                        assert(before[bb].1.callees@[j] == buckets@[bb].1.callees@[j]);
                    } else if bb != b {
                        assert(buckets@[bb] == before[bb]);
                        assert(before[bb].1.callees@[j] == buckets@[bb].1.callees@[j]);
                    }
                }
                assert forall|bb: int, j: int|
                    0 <= bb < buckets@.len() && 0 <= j < (#[trigger] buckets@[bb]).1.callers@.len()
                        implies (bb < before.len() && before[bb].1.callers@.contains(
                        (#[trigger] buckets@[bb].1.callers@[j]),
                    )) by {
                    assert(buckets@[bb].1.callers == before[bb].1.callers);
                    assert(before[bb].1.callers@[j] == buckets@[bb].1.callers@[j]);
                }
            }
            return ;
        }
        b = b + 1;
    }
    let ghost before = buckets@;
    let mut callees: Vec<usize> = Vec::new();
    callees.push(callee);
    buckets.push((sig, Bucket { called: false, callers: Vec::new(), callees }));
    proof {
        assert forall|bb: int, j: int|
            0 <= bb < buckets@.len() && 0 <= j < (#[trigger] buckets@[bb]).1.callers@.len()
                implies (bb < before.len() && before[bb].1.callers@.contains(
                (#[trigger] buckets@[bb].1.callers@[j]),
            )) by {
            if bb < before.len() {
                assert(buckets@[bb] == before[bb]);
                assert(before[bb].1.callers@[j] == buckets@[bb].1.callers@[j]);
            }
        }
        assert forall|bb: int, j: int|
            0 <= bb < buckets@.len() && 0 <= j < (#[trigger] buckets@[bb]).1.callees@.len()
                implies ((#[trigger] buckets@[bb].1.callees@[j]) == callee || (bb < before.len()
                && before[bb].1.callees@.contains(buckets@[bb].1.callees@[j]))) by {
            if bb < before.len() {
                assert(buckets@[bb] == before[bb]);
                assert(before[bb].1.callees@[j] == buckets@[bb].1.callees@[j]);
            }
        }
    }
}

/// Marks the bucket keyed by a signature structurally equal to `sig` as
/// called from `caller`, making a new bucket when none matches.
fn bucket_mark_called(buckets: &mut Vec<(FnSig, Bucket)>, sig: FnSig, caller: usize)
    ensures
        final(buckets)@.len() >= old(buckets)@.len(),
        forall|b: int, j: int|
            0 <= b < final(buckets)@.len() && 0 <= j < (#[trigger] final(buckets)@[b]).1.callees@.len()
                ==> (b < old(buckets)@.len() && old(buckets)@[b].1.callees@.contains(
                (#[trigger] final(buckets)@[b].1.callees@[j]),
            )),
        forall|b: int, j: int|
            0 <= b < final(buckets)@.len() && 0 <= j < (#[trigger] final(buckets)@[b]).1.callers@.len()
                ==> ((#[trigger] final(buckets)@[b].1.callers@[j]) == caller || (b < old(
                buckets,
            )@.len() && old(buckets)@[b].1.callers@.contains(final(buckets)@[b].1.callers@[j]))),
{
    let n = buckets.len();
    let mut b: usize = 0;
    while b < n
        invariant
            0 <= b <= n,
            n == buckets@.len(),
            buckets == old(buckets),
        decreases n - b,
    {
        if buckets[b].0.equals(&sig) {
            let ghost before = buckets@;
            buckets[b].1.called = true;
            let ghost mid = buckets@;
            let already = vec_contains_usize(&buckets[b].1.callers, caller);
            if !already {
                buckets[b].1.callers.push(caller);
            }
            proof {
                assert forall|bb: int, j: int|
                    0 <= bb < buckets@.len() && 0 <= j < (#[trigger] buckets@[bb]).1.callees@.len()
                        implies (bb < before.len() && before[bb].1.callees@.contains(
                        (#[trigger] buckets@[bb].1.callees@[j]),
                    )) by {
                    assert(buckets@[bb].1.callees == before[bb].1.callees);
                    assert(before[bb].1.callees@[j] == buckets@[bb].1.callees@[j]);
                }
                assert forall|bb: int, j: int|
                    0 <= bb < buckets@.len() && 0 <= j < (#[trigger] buckets@[bb]).1.callers@.len()
                        implies ((#[trigger] buckets@[bb].1.callers@[j]) == caller || (bb
                        < before.len() && before[bb].1.callers@.contains(
                        buckets@[bb].1.callers@[j],
                    ))) by {
                    if bb == b {
                        if j < before[bb].1.callers@.len() {
                            assert(before[bb].1.callers@[j] == buckets@[bb].1.callers@[j]);
                        }
                    } else {
                        assert(buckets@[bb] == before[bb]);
                        assert(before[bb].1.callers@[j] == buckets@[bb].1.callers@[j]);
                    }
                }
            }
            return ;
        }
        b = b + 1;
    }
    let ghost before = buckets@;
    let mut callers: Vec<usize> = Vec::new();
    callers.push(caller);
    buckets.push((sig, Bucket { called: true, callers, callees: Vec::new() }));
    proof {
        assert forall|bb: int, j: int|
            0 <= bb < buckets@.len() && 0 <= j < (#[trigger] buckets@[bb]).1.callees@.len()
                implies (bb < before.len() && before[bb].1.callees@.contains(
                (#[trigger] buckets@[bb].1.callees@[j]),
            )) by {
            if bb < before.len() {
                assert(buckets@[bb] == before[bb]);
                assert(before[bb].1.callees@[j] == buckets@[bb].1.callees@[j]);
            }
        }
        assert forall|bb: int, j: int|
            0 <= bb < buckets@.len() && 0 <= j < (#[trigger] buckets@[bb]).1.callers@.len()
                implies ((#[trigger] buckets@[bb].1.callers@[j]) == caller || (bb < before.len()
                && before[bb].1.callers@.contains(buckets@[bb].1.callers@[j]))) by {
            if bb < before.len() {
                assert(buckets@[bb] == before[bb]);
                assert(before[bb].1.callers@[j] == buckets@[bb].1.callers@[j]);
            }
        }
    }
}

/// The node index bound to `name`, read from the first matching entry.
pub open spec fn first_index_of(indices: Seq<(String, usize)>, name: Seq<char>, from: int) -> Option<
    usize,
>
    decreases indices.len() - from,
{
    if from < 0 || from >= indices.len() {
        None
    } else if indices[from].0@ == name {
        Some(indices[from].1)
    } else {
        first_index_of(indices, name, from + 1)
    }
}

fn index_lookup(indices: &Vec<(String, usize)>, name: &str) -> (r: Option<usize>)
    ensures
        r == first_index_of(indices@, name@, 0),
        r matches Some(v) ==> exists|p: int|
            0 <= p < indices@.len() && (#[trigger] indices@[p]).0@ == name@ && indices@[p].1 == v,
        r is None ==> forall|p: int| 0 <= p < indices@.len() ==> (#[trigger] indices@[p]).0@ != name@,
{
    let mut i: usize = 0;
    while i < indices.len()
        invariant
            0 <= i <= indices@.len(),
            forall|p: int| 0 <= p < i ==> (#[trigger] indices@[p]).0@ != name@,
            first_index_of(indices@, name@, 0) == first_index_of(indices@, name@, i as int),
        decreases indices@.len() - i,
    {
        if str_eq(indices[i].0.as_str(), name) {
            let v = indices[i].1;
            proof {
                assert((#[trigger] indices@[i as int]).0@ == name@ && indices@[i as int].1 == v);
            }
            return Some(v);
        }
        i = i + 1;
    }
    None
}

fn addr_lookup(table: &Vec<(u64, String)>, addr: u64) -> (r: Option<usize>)
    ensures
        r matches Some(p) ==> p < table@.len() && table@[p as int].0 == addr,
        r is None ==> forall|p: int| 0 <= p < table@.len() ==> (#[trigger] table@[p]).0 != addr,
{
    let mut i: usize = 0;
    while i < table.len()
        invariant
            0 <= i <= table@.len(),
            forall|p: int| 0 <= p < i ==> (#[trigger] table@[p]).0 != addr,
        decreases table@.len() - i,
    {
        if table[i].0 == addr {
            return Some(i);
        }
        i = i + 1;
    }
    None
}

fn copy_usizes(v: &Vec<usize>) -> (r: Vec<usize>)
    ensures
        r@ == v@,
{
    let mut r: Vec<usize> = Vec::new();
    let mut i: usize = 0;
    while i < v.len()
        invariant
            0 <= i <= v@.len(),
            r@ =~= v@.take(i as int),
        decreases v@.len() - i,
    {
        r.push(v[i]);
        proof {
            assert(r@ =~= v@.take(i + 1));
        }
        i = i + 1;
    }
    proof {
        assert(v@.take(v@.len() as int) =~= v@);
    }
    r
}

impl CallGraphBuilder {
    /// Whether a direct call to `f` can be resolved: its name is bound to a
    /// canonical name the index table knows, or it occurs among the
    /// undefined symbols.
    pub open spec fn direct_resolvable(self, undefined: Seq<String>, f: Seq<char>) -> bool {
        match alias_of(self.aliases@, f, 0) {
            Some(c) => exists|p: int|
                0 <= p < self.indices@.len() && (#[trigger] self.indices@[p]).0@ == c,
            None => contains_string(undefined, f),
        }
    }

    /// Whether a statement makes graph construction fail: a bitcast call of
    /// an unnamed symbol, an intrinsic no rule covers, or a direct call that
    /// cannot be resolved.
    pub open spec fn stmt_faults(
        self,
        stmt: crate::ir::Stmt,
        undefined: Seq<String>,
        thumb: bool,
    ) -> bool {
        match stmt {
            crate::ir::Stmt::BitcastCall(o) => o is None,
            crate::ir::Stmt::DirectCall(f) => {
                let k = spec_classify_call(f@, thumb);
                k is Invalid || (k is Ordinary && !self.direct_resolvable(undefined, f@))
            },
            _ => false,
        }
    }

    /// Adds a node bearing a name unknown to the index table, and indexes it.
    fn add_named_node(&mut self, name: String, stack: Option<u64>) -> (idx: usize)
        requires
            old(self).wf(),
            forall|p: int|
                0 <= p < old(self).indices@.len() ==> (#[trigger] old(self).indices@[p]).0@ != name@,
        ensures
            final(self).wf(),
            idx < final(self).g.nodes@.len(),
            final(self).g.nodes@.len() == old(self).g.nodes@.len() + 1,
            final(self).g.edges@ == old(self).g.edges@,
            forall|v: int|
                0 <= v < old(self).g.nodes@.len() ==> final(self).g.nodes@[v] == old(
                    self,
                ).g.nodes@[v],
            final(self).indirects == old(self).indirects,
            final(self).dynamics == old(self).dynamics,
            final(self).fmts == old(self).fmts,
            final(self).aliases == old(self).aliases,
            final(self).defined == old(self).defined,
            final(self).asm_fns == old(self).asm_fns,
            final(self).has_untyped_symbols == old(self).has_untyped_symbols,
            final(self).has_stack_usage_info == old(self).has_stack_usage_info,
    {
        let ghost name_view = name@;
        let idx = self.g.add_node(Node(name, stack, false));
        self.indices.push((self.g.nodes[idx].name.clone(), idx));
        proof {
            assert(self.indices@.last().0@ == name_view);
            assert(self.indices@.last().1 == idx);
        }
        idx
    }

    /// Walks every define's statements and adds the direct, bitcast, and
    /// dispatch information to the graph and the buckets, as the intrinsic
    /// tables direct. Fails on an unnamed bitcast target, an intrinsic no
    /// rule covers, and a callee that is neither known nor undefined.
    pub fn add_ir_edges(
        &mut self,
        defines: &Vec<crate::ir::Define>,
        undefined: &Vec<String>,
        target: crate::symbols::Target,
    ) -> (r: Result<(), BuildError>)
        requires
            old(self).wf(),
        ensures
            final(self).wf(),
            final(self).g.nodes@.len() >= old(self).g.nodes@.len(),
            forall|v: int|
                0 <= v < old(self).g.nodes@.len() ==> final(self).g.nodes@[v] == old(
                    self,
                ).g.nodes@[v],
            crate::graph::edges_unique(old(self).g.edges@) ==> crate::graph::edges_unique(
                final(self).g.edges@,
            ),
            final(self).has_stack_usage_info == old(self).has_stack_usage_info,
            r matches Err(e) ==> (e is UnnamedBitcastTarget || e is UnhandledIntrinsic
                || e is UnknownCallee),
    {
        let thumb = target.is_thumb();
        let nd = defines.len();
        let mut d: usize = 0;
        while d < nd
            invariant
                nd == defines@.len(),
                0 <= d <= nd,
                self.wf(),
                self.g.nodes@.len() >= old(self).g.nodes@.len(),
                forall|v: int|
                    0 <= v < old(self).g.nodes@.len() ==> #[trigger] self.g.nodes@[v] == old(
                        self,
                    ).g.nodes@[v],
                crate::graph::edges_unique(old(self).g.edges@) ==> crate::graph::edges_unique(
                    self.g.edges@,
                ),
                self.has_stack_usage_info == old(self).has_stack_usage_info,
            decreases nd - d,
        {
            let define = &defines[d];
            let canon_entry = alias_lookup(&self.aliases, define.name.as_str());
            match canon_entry {
                None => {
                    // not linked in: the linker dropped this definition
                },
                Some(p) => {
                    let canonical = self.aliases[p].1.clone();
                    self.defined.push(canonical.clone());
                    match index_lookup(&self.indices, canonical.as_str()) {
                        None => {},
                        Some(caller) => {
                            proof {
                                let q = choose|q: int|
                                    0 <= q < self.indices@.len() && (#[trigger] self.indices@[q]).0@
                                        == canonical@ && self.indices@[q].1 == caller;
                            }
                            let ns = define.stmts.len();
                            let mut t: usize = 0;
                            while t < ns
                                invariant
                                    ns == define.stmts@.len(),
                                    define == defines@[d as int],
                                    nd == defines@.len(),
                                    d < nd,
                                    0 <= t <= ns,
                                    self.wf(),
                                    caller < self.g.nodes@.len(),
                                    self.g.nodes@.len() >= old(self).g.nodes@.len(),
                                    forall|v: int|
                                        0 <= v < old(self).g.nodes@.len()
                                            ==> #[trigger] self.g.nodes@[v] == old(
                                            self,
                                        ).g.nodes@[v],
                                    crate::graph::edges_unique(old(self).g.edges@)
                                        ==> crate::graph::edges_unique(self.g.edges@),
                                    self.has_stack_usage_info == old(self).has_stack_usage_info,
                                decreases ns - t,
                            {
                                let r = self.add_stmt_edge(
                                    &define.stmts[t],
                                    caller,
                                    canonical.as_str(),
                                    undefined,
                                    thumb,
                                );
                                match r {
                                    Ok(()) => {},
                                    Err(e) => {
                                        return Err(e);
                                    },
                                }
                                t = t + 1;
                            }
                        },
                    }
                },
            }
            d = d + 1;
        }
        Ok(())
    }

    /// Handles one statement of a define's body for caller node `caller`.
    fn add_stmt_edge(
        &mut self,
        stmt: &crate::ir::Stmt,
        caller: usize,
        canonical: &str,
        undefined: &Vec<String>,
        thumb: bool,
    ) -> (r: Result<(), BuildError>)
        requires
            old(self).wf(),
            caller < old(self).g.nodes@.len(),
        ensures
            final(self).wf(),
            final(self).g.nodes@.len() >= old(self).g.nodes@.len(),
            forall|v: int|
                0 <= v < old(self).g.nodes@.len() ==> final(self).g.nodes@[v] == old(
                    self,
                ).g.nodes@[v],
            crate::graph::edges_unique(old(self).g.edges@) ==> crate::graph::edges_unique(
                final(self).g.edges@,
            ),
            final(self).has_stack_usage_info == old(self).has_stack_usage_info,
            r is Err <==> old(self).stmt_faults(*stmt, undefined@, thumb),
            r matches Err(e) ==> (e is UnnamedBitcastTarget || e is UnhandledIntrinsic
                || e is UnknownCallee),
    {
        match stmt {
            crate::ir::Stmt::Asm(_) => {
                if !contains_name(&self.asm_fns, canonical) {
                    self.asm_fns.push(String::from_str(canonical));
                }
                Ok(())
            },
            crate::ir::Stmt::BitcastCall(opt) => {
                match opt {
                    None => Err(BuildError::UnnamedBitcastTarget),
                    Some(sym) => {
                        let callee = match index_lookup(&self.indices, sym.as_str()) {
                            Some(i) => {
                                proof {
                                    let q = choose|q: int|
                                        0 <= q < self.indices@.len() && (
                                        #[trigger] self.indices@[q]).0@ == sym@
                                            && self.indices@[q].1 == i;
                                }
                                i
                            },
                            None => self.add_named_node(sym.clone(), None),
                        };
                        self.g.add_edge_dedup(caller, callee);
                        Ok(())
                    },
                }
            },
            crate::ir::Stmt::DirectCall(func) => {
                match classify_call(func.as_str(), thumb) {
                    CallKind::Skip | CallKind::Deferred | CallKind::MachineCode => Ok(()),
                    CallKind::Invalid => Err(BuildError::UnhandledIntrinsic(func.clone())),
                    CallKind::Memcpy => {
                        self.mem_edges_copy(caller);
                        Ok(())
                    },
                    CallKind::Memset => {
                        self.mem_edges_set(caller);
                        Ok(())
                    },
                    CallKind::Ordinary => {
                        match alias_lookup(&self.aliases, func.as_str()) {
                            Some(p) => {
                                let canon = self.aliases[p].1.clone();
                                match index_lookup(&self.indices, canon.as_str()) {
                                    Some(i) => {
                                        proof {
                                            let q = choose|q: int|
                                                0 <= q < self.indices@.len() && (
                                                #[trigger] self.indices@[q]).0@ == canon@
                                                    && self.indices@[q].1 == i;
                                        }
                                        self.g.add_edge_dedup(caller, i);
                                        Ok(())
                                    },
                                    None => Err(BuildError::UnknownCallee(func.clone())),
                                }
                            },
                            None => {
                                if contains_name(undefined, func.as_str()) {
                                    let callee = match index_lookup(
                                        &self.indices,
                                        func.as_str(),
                                    ) {
                                        Some(i) => {
                                            proof {
                                                let q = choose|q: int|
                                                    0 <= q < self.indices@.len() && (
                                                    #[trigger] self.indices@[q]).0@ == func@
                                                        && self.indices@[q].1 == i;
                                            }
                                            i
                                        },
                                        None => self.add_named_node(func.clone(), None),
                                    };
                                    self.g.add_edge_dedup(caller, callee);
                                    Ok(())
                                } else {
                                    Err(BuildError::UnknownCallee(func.clone()))
                                }
                            },
                        }
                    },
                }
            },
            crate::ir::Stmt::IndirectCall(sig) => {
                let erased = sig.inputs.len() >= 1 && sig.inputs[0].has_been_erased();
                if erased {
                    bucket_mark_called(&mut self.dynamics, sig.deep_clone(), caller);
                } else {
                    bucket_mark_called(&mut self.indirects, sig.deep_clone(), caller);
                }
                Ok(())
            },
            crate::ir::Stmt::Label | crate::ir::Stmt::Comment | crate::ir::Stmt::Other => Ok(()),
        }
    }

    /// Adds deduplicated edges to whichever copy-intrinsic symbols exist.
    fn mem_edges_copy(&mut self, caller: usize)
        requires
            old(self).wf(),
            caller < old(self).g.nodes@.len(),
        ensures
            final(self).wf(),
            final(self).g.nodes@.len() == old(self).g.nodes@.len(),
            final(self).g.nodes@ == old(self).g.nodes@,
            crate::graph::edges_unique(old(self).g.edges@) ==> crate::graph::edges_unique(
                final(self).g.edges@,
            ),
            final(self).has_stack_usage_info == old(self).has_stack_usage_info,
    {
        self.mem_edge_to(caller, "memcpy");
        self.mem_edge_to(caller, "__aeabi_memcpy");
        self.mem_edge_to(caller, "__aeabi_memcpy4");
    }

    /// Adds deduplicated edges to whichever set- and clear-intrinsic symbols
    /// exist.
    fn mem_edges_set(&mut self, caller: usize)
        requires
            old(self).wf(),
            caller < old(self).g.nodes@.len(),
        ensures
            final(self).wf(),
            final(self).g.nodes@.len() == old(self).g.nodes@.len(),
            final(self).g.nodes@ == old(self).g.nodes@,
            crate::graph::edges_unique(old(self).g.edges@) ==> crate::graph::edges_unique(
                final(self).g.edges@,
            ),
            final(self).has_stack_usage_info == old(self).has_stack_usage_info,
    {
        self.mem_edge_to(caller, "memset");
        self.mem_edge_to(caller, "__aeabi_memset");
        self.mem_edge_to(caller, "__aeabi_memset4");
        self.mem_edge_to(caller, "memclr");
        self.mem_edge_to(caller, "__aeabi_memclr");
        self.mem_edge_to(caller, "__aeabi_memclr4");
    }

    fn mem_edge_to(&mut self, caller: usize, name: &str)
        requires
            old(self).wf(),
            caller < old(self).g.nodes@.len(),
        ensures
            final(self).wf(),
            final(self).g.nodes@.len() == old(self).g.nodes@.len(),
            final(self).g.nodes@ == old(self).g.nodes@,
            crate::graph::edges_unique(old(self).g.edges@) ==> crate::graph::edges_unique(
                final(self).g.edges@,
            ),
            final(self).has_stack_usage_info == old(self).has_stack_usage_info,
    {
        match index_lookup(&self.indices, name) {
            Some(i) => {
                proof {
                    let q = choose|q: int|
                        0 <= q < self.indices@.len() && (#[trigger] self.indices@[q]).0@ == name@
                            && self.indices@[q].1 == i;
                }
                self.g.add_edge_dedup(caller, i);
            },
            None => {},
        }
    }
}

impl CallGraphBuilder {
    /// Reconciles the machine-code findings with the graph on a Thumb
    /// target: checks or overrides local stack values, adds edges for direct
    /// calls and outward branches found in the code, and injects a node of
    /// unknown stack for an indirect call without type information.
    #[verifier::rlimit(100)]
    pub fn reconcile_machine(
        &mut self,
        symbols: &Vec<crate::symbols::DefinedSymbol>,
        sizes: &Vec<u64>,
        analyses: &Vec<SymbolAnalysis>,
    ) -> (r: Result<(), BuildError>)
        requires
            old(self).wf(),
            sizes@.len() == symbols@.len(),
            analyses@.len() == symbols@.len(),
            forall|p: int| 0 <= p < symbols@.len() ==> (#[trigger] symbols@[p]).names@.len() >= 1,
            forall|p: int|
                0 <= p < symbols@.len() ==> (#[trigger] symbols@[p]).address + sizes@[p]
                    <= u64::MAX,
        ensures
            final(self).wf(),
            final(self).has_stack_usage_info == old(self).has_stack_usage_info,
            crate::graph::edges_unique(old(self).g.edges@) ==> crate::graph::edges_unique(
                final(self).g.edges@,
            ),
            forall|v: int|
                0 <= v < old(self).g.nodes@.len() ==> {
                    &&& (#[trigger] final(self).g.nodes@[v]).name == old(self).g.nodes@[v].name
                    &&& final(self).g.nodes@[v].dashed == old(self).g.nodes@[v].dashed
                    &&& final(self).g.nodes@[v].max == old(self).g.nodes@[v].max
                },
            forall|v: usize|
                v < old(self).g.nodes@.len() && !resolved_before(
                    old(self).aliases@,
                    old(self).indices@,
                    symbols@,
                    symbols@.len() as int,
                    v,
                ) ==> (#[trigger] final(self).g.nodes@[v as int]).local == old(
                    self,
                ).g.nodes@[v as int].local,
    {
        let ns = symbols.len();
        let ghost aa = old(self).aliases@;
        let ghost ii = old(self).indices@;
        let ghost ff = old(self).asm_fns@;
        let ghost nn = old(self).g.nodes@;
        let mut s: usize = 0;
        while s < ns
            invariant
                ns == symbols@.len(),
                sizes@.len() == ns,
                analyses@.len() == ns,
                0 <= s <= ns,
                self.wf(),
                aa == old(self).aliases@,
                ii == old(self).indices@,
                ff == old(self).asm_fns@,
                nn == old(self).g.nodes@,
                self.aliases == old(self).aliases,
                self.indices == old(self).indices,
                self.asm_fns == old(self).asm_fns,
                self.defined == old(self).defined,
                self.has_stack_usage_info == old(self).has_stack_usage_info,
                self.g.nodes@.len() >= old(self).g.nodes@.len(),
                crate::graph::edges_unique(old(self).g.edges@) ==> crate::graph::edges_unique(
                    self.g.edges@,
                ),
                forall|v: int|
                    0 <= v < old(self).g.nodes@.len() ==> {
                        &&& (#[trigger] self.g.nodes@[v]).name == old(self).g.nodes@[v].name
                        &&& self.g.nodes@[v].dashed == old(self).g.nodes@[v].dashed
                        &&& self.g.nodes@[v].max == old(self).g.nodes@[v].max
                    },
                forall|v: usize|
                    v < nn.len() && !resolved_before(aa, ii, symbols@, s as int, v)
                        ==> (#[trigger] self.g.nodes@[v as int]).local == nn[v as int].local,
                forall|p: int| 0 <= p < symbols@.len() ==> (#[trigger] symbols@[p]).names@.len() >= 1,
                forall|p: int|
                    0 <= p < symbols@.len() ==> (#[trigger] symbols@[p]).address + sizes@[p]
                        <= u64::MAX,
            decreases ns - s,
        {
            let address = symbols[s].address;
            let size = sizes[s];
            let caller_opt = match alias_lookup(&self.aliases, symbols[s].names[0].as_str()) {
                Some(p) => {
                    let canon = self.aliases[p].1.clone();
                    match index_lookup(&self.indices, canon.as_str()) {
                        Some(i) => {
                            proof {
                                let q = choose|q: int|
                                    0 <= q < self.indices@.len() && (#[trigger] self.indices@[q]).0@
                                        == canon@ && self.indices@[q].1 == i;
                            }
                            Some((i, canon))
                        },
                        None => None,
                    }
                },
                None => None,
            };
            match caller_opt {
                None => {
                    proof {
                        assert(symbol_caller(aa, ii, symbols@[s as int]) is None);
                        assert forall|v: usize|
                            v < nn.len() && !resolved_before(
                                aa,
                                ii,
                                symbols@,
                                s + 1,
                                v,
                            ) implies (#[trigger] self.g.nodes@[v as int]).local
                            == nn[v as int].local by {
                            if resolved_before(aa, ii, symbols@, s as int, v) {
                                let sp = choose|sp: int|
                                    0 <= sp < s && #[trigger] symbol_caller(
                                        aa,
                                        ii,
                                        symbols@[sp],
                                    ) == Some(v);
                                assert(resolved_before(aa, ii, symbols@, s + 1, v));
                            }
                        }
                    }
                },
                Some((caller, canon)) => {
                    proof {
                        assert(symbol_caller(aa, ii, symbols@[s as int]) == Some(caller));
                        assert(canon@ == alias_of(aa, symbols@[s as int].names@[0]@, 0)->Some_0);
                    }
                    let analysis = &analyses[s];
                    let in_asm = contains_name(&self.asm_fns, canon.as_str());
                    match analysis.our_stack {
                        Some(stack) => {
                            if (stack != 0) != analysis.modifies_sp {
                                proof {
                                    reconcile_err_untouched(
                                        aa,
                                        ii,
                                        symbols@,
                                        nn,
                                        self.g.nodes@,
                                        s as int,
                                        ns as int,
                                        caller,
                                    );
                                }
                                return Err(BuildError::StackMismatch(canon));
                            }
                        },
                        None => {},
                    }
                    let cur = self.g.nodes[caller].local;
                    match cur {
                        Local::Exact(llvm) => {
                            let mut val = llvm;
                            match analysis.our_stack {
                                Some(stack) => {
                                    if llvm != stack {
                                        if in_asm {
                                            // assembly is opaque to the
                                            // compiler's stack analysis:
                                            // the machine code wins
                                            self.g.nodes[caller].local = Local::Exact(stack);
                                            val = stack;
                                        } else {
                                            proof {
                                                reconcile_err_untouched(
                                                    aa,
                                                    ii,
                                                    symbols@,
                                                    nn,
                                                    self.g.nodes@,
                                                    s as int,
                                                    ns as int,
                                                    caller,
                                                );
                                            }
                                            return Err(BuildError::StackMismatch(canon));
                                        }
                                    }
                                },
                                None => {},
                            }
                            if (val != 0) != analysis.modifies_sp {
                                proof {
                                    reconcile_err_untouched(
                                        aa,
                                        ii,
                                        symbols@,
                                        nn,
                                        self.g.nodes@,
                                        s as int,
                                        ns as int,
                                        caller,
                                    );
                                }
                                return Err(BuildError::StackMismatch(canon));
                            }
                        },
                        Local::Unknown => {
                            match analysis.our_stack {
                                Some(stack) => {
                                    self.g.nodes[caller].local = Local::Exact(stack);
                                },
                                None => {
                                    if !analysis.modifies_sp {
                                        // intra-symbol branches defeated the
                                        // analyzer, but the stack pointer is
                                        // provably untouched
                                        self.g.nodes[caller].local = Local::Exact(0);
                                    }
                                },
                            }
                        },
                    }
                    let ghost settled = self.g.nodes@[caller as int].local;
                    // an untyped symbol with an indirect call gets the
                    // pessimistic unknown callee
                    if !contains_name(&self.defined, canon.as_str()) && analysis.indirect {
                        let q = self.g.add_node(Node(String::from_str("?"), None, false));
                        self.g.add_edge_dedup(caller, q);
                    }
                    let ghost nodes_mid = self.g.nodes@;
                    proof {
                        assert(nodes_mid[caller as int].local == settled);
                        assert(nodes_mid.len() >= old(self).g.nodes@.len());
                        assert(forall|v: int|
                            0 <= v < old(self).g.nodes@.len() ==> {
                                &&& (#[trigger] nodes_mid[v]).name == old(self).g.nodes@[v].name
                                &&& nodes_mid[v].dashed == old(self).g.nodes@[v].dashed
                                &&& nodes_mid[v].max == old(self).g.nodes@[v].max
                            });
                        assert(forall|v: usize|
                            v < nn.len() && !resolved_before(aa, ii, symbols@, s as int, v) && v
                                != caller ==> (#[trigger] nodes_mid[v as int]).local
                                == nn[v as int].local);
                    }
                    // direct calls found in the machine code
                    let nb = analysis.bls.len();
                    let mut b: usize = 0;
                    while b < nb
                        invariant
                            nb == analysis.bls@.len(),
                            analysis == analyses@[s as int],
                            analyses@.len() == ns,
                            ns == symbols@.len(),
                            s < ns,
                            0 <= b <= nb,
                            self.wf(),
                            caller < self.g.nodes@.len(),
                            aa == old(self).aliases@,
                            ii == old(self).indices@,
                            nn == old(self).g.nodes@,
                            forall|v: int|
                                0 <= v < old(self).g.nodes@.len() ==> {
                                    &&& (#[trigger] nodes_mid[v]).name == old(
                                        self,
                                    ).g.nodes@[v].name
                                    &&& nodes_mid[v].dashed == old(self).g.nodes@[v].dashed
                                    &&& nodes_mid[v].max == old(self).g.nodes@[v].max
                                },
                            symbol_caller(aa, ii, symbols@[s as int]) == Some(caller),
                            forall|v: usize|
                                v < nn.len() && !resolved_before(aa, ii, symbols@, s as int, v)
                                    && v != caller ==> (#[trigger] nodes_mid[v as int]).local
                                    == nn[v as int].local,
                            self.g.nodes@ == nodes_mid,
                            self.aliases == old(self).aliases,
                            self.indices == old(self).indices,
                            self.asm_fns == old(self).asm_fns,
                            self.defined == old(self).defined,
                            self.has_stack_usage_info == old(self).has_stack_usage_info,
                            self.g.nodes@.len() >= old(self).g.nodes@.len(),
                            crate::graph::edges_unique(old(self).g.edges@)
                                ==> crate::graph::edges_unique(self.g.edges@),
                        decreases nb - b,
                    {
                        let off = analysis.bls[b];
                        let addr = #[verifier::truncate] (((address as i128) + (off as i128)) as u64);
                        match self.machine_edge(caller, addr) {
                            Ok(()) => {},
                            Err(e) => {
                                proof {
                                    reconcile_err_untouched(
                                        aa,
                                        ii,
                                        symbols@,
                                        nn,
                                        self.g.nodes@,
                                        s as int,
                                        ns as int,
                                        caller,
                                    );
                                }
                                return Err(e);
                            },
                        }
                        b = b + 1;
                    }
                    // branches leaving the symbol's own range are tail calls
                    let nbs = analysis.bs.len();
                    let mut b2: usize = 0;
                    while b2 < nbs
                        invariant
                            nbs == analysis.bs@.len(),
                            analysis == analyses@[s as int],
                            analyses@.len() == ns,
                            ns == symbols@.len(),
                            s < ns,
                            0 <= b2 <= nbs,
                            self.wf(),
                            caller < self.g.nodes@.len(),
                            aa == old(self).aliases@,
                            ii == old(self).indices@,
                            nn == old(self).g.nodes@,
                            forall|v: int|
                                0 <= v < old(self).g.nodes@.len() ==> {
                                    &&& (#[trigger] nodes_mid[v]).name == old(
                                        self,
                                    ).g.nodes@[v].name
                                    &&& nodes_mid[v].dashed == old(self).g.nodes@[v].dashed
                                    &&& nodes_mid[v].max == old(self).g.nodes@[v].max
                                },
                            symbol_caller(aa, ii, symbols@[s as int]) == Some(caller),
                            forall|v: usize|
                                v < nn.len() && !resolved_before(aa, ii, symbols@, s as int, v)
                                    && v != caller ==> (#[trigger] nodes_mid[v as int]).local
                                    == nn[v as int].local,
                            self.g.nodes@ == nodes_mid,
                            self.aliases == old(self).aliases,
                            self.indices == old(self).indices,
                            self.asm_fns == old(self).asm_fns,
                            self.defined == old(self).defined,
                            self.has_stack_usage_info == old(self).has_stack_usage_info,
                            self.g.nodes@.len() >= old(self).g.nodes@.len(),
                            crate::graph::edges_unique(old(self).g.edges@)
                                ==> crate::graph::edges_unique(self.g.edges@),
                            address == symbols@[s as int].address,
                            size == sizes@[s as int],
                            address + size <= u64::MAX,
                        decreases nbs - b2,
                    {
                        let off = analysis.bs[b2];
                        let addr32 = #[verifier::truncate] (((address as i128) + (off as i128)) as u32);
                        let addr = addr32 as u64;
                        if addr >= address && addr < address + size {
                            // a branch within the symbol is no call
                        } else {
                            match self.machine_edge(caller, addr) {
                                Ok(()) => {},
                                Err(e) => {
                                    proof {
                                        reconcile_err_untouched(
                                            aa,
                                            ii,
                                            symbols@,
                                            nn,
                                            self.g.nodes@,
                                            s as int,
                                            ns as int,
                                            caller,
                                        );
                                    }
                                    return Err(e);
                                },
                            }
                        }
                        b2 = b2 + 1;
                    }
                    proof {
                        // the rule held for this symbol; earlier symbols with
                        // their own nodes keep theirs
                        assert forall|v: usize|
                            v < nn.len() && !resolved_before(
                                aa,
                                ii,
                                symbols@,
                                s + 1,
                                v,
                            ) implies (#[trigger] self.g.nodes@[v as int]).local
                            == nn[v as int].local by {
                            if v == caller {
                                assert(resolved_before(aa, ii, symbols@, s + 1, v));
                            } else if resolved_before(aa, ii, symbols@, s as int, v) {
                                lemma_resolved_mono(aa, ii, symbols@, s as int, s + 1, v);
                            }
                        }
                    }
                },
            }
            s = s + 1;
        }
        Ok(())
    }

    /// Adds a deduplicated edge to the symbol at `addr`, failing when no
    /// symbol sits there or its canonical name has no node.
    fn machine_edge(&mut self, caller: usize, addr: u64) -> (r: Result<(), BuildError>)
        requires
            old(self).wf(),
            caller < old(self).g.nodes@.len(),
        ensures
            final(self).wf(),
            final(self).g.nodes@.len() == old(self).g.nodes@.len(),
            final(self).g.nodes@ == old(self).g.nodes@,
            final(self).has_stack_usage_info == old(self).has_stack_usage_info,
            final(self).aliases == old(self).aliases,
            final(self).indices == old(self).indices,
            final(self).asm_fns == old(self).asm_fns,
            final(self).defined == old(self).defined,
            crate::graph::edges_unique(old(self).g.edges@) ==> crate::graph::edges_unique(
                final(self).g.edges@,
            ),
            r matches Err(e) ==> (e is NoSymbolAtAddress || e is UnknownCallee),
    {
        match addr_lookup(&self.addr2name, addr) {
            None => Err(BuildError::NoSymbolAtAddress(addr)),
            Some(p) => {
                let name = self.addr2name[p].1.clone();
                match index_lookup(&self.indices, name.as_str()) {
                    Some(i) => {
                        proof {
                            let q = choose|q: int|
                                0 <= q < self.indices@.len() && (#[trigger] self.indices@[q]).0@
                                    == name@ && self.indices@[q].1 == i;
                        }
                        self.g.add_edge_dedup(caller, i);
                        Ok(())
                    },
                    None => Err(BuildError::UnknownCallee(name)),
                }
            },
        }
    }

    /// Expands every called dispatch bucket into a fictitious node joining
    /// its callers to its callees. Every called dynamic bucket, and every
    /// called indirect bucket away from the chosen erased-void alias, gains a
    /// dashed node of zero local stack labeled with its rendered signature
    /// and a `*`, an edge from each of its callers and to each of its
    /// callees; the bucket matching the chosen alias takes the formatter set
    /// as callees instead; with untyped symbols present every indirect site
    /// also reaches a fresh unknown node. No added edge connects a node to
    /// itself, and parallel edges stay out.
    pub fn expand_dispatch(&mut self)
        requires
            old(self).wf(),
        ensures
            final(self).wf(),
            final(self).g.nodes@.len() >= old(self).g.nodes@.len(),
            forall|v: int|
                0 <= v < old(self).g.nodes@.len() ==> final(self).g.nodes@[v] == old(
                    self,
                ).g.nodes@[v],
            forall|q: int|
                0 <= q < final(self).g.edges@.len() ==> (old(self).g.edges@.contains(
                    #[trigger] final(self).g.edges@[q],
                ) || final(self).g.edges@[q].0 != final(self).g.edges@[q].1),
            forall|e: (usize, usize)|
                old(self).g.edges@.contains(e) ==> final(self).g.edges@.contains(e),
            crate::graph::edges_unique(old(self).g.edges@) ==> crate::graph::edges_unique(
                final(self).g.edges@,
            ),
            forall|b: int|
                0 <= b < old(self).dynamics@.len() && (#[trigger] old(self).dynamics@[b]).1.called
                    ==> site_expanded(
                    final(self).g.nodes@,
                    final(self).g.edges@,
                    sig_str(old(self).dynamics@[b].0) + "*"@,
                    old(self).dynamics@[b].1.callers@,
                    old(self).dynamics@[b].1.callees@,
                    false,
                ),
            final(self).has_stack_usage_info == old(self).has_stack_usage_info,
            exists|chosen: Option<Seq<char>>|
                #[trigger] indirect_sites_expanded(
                    final(self).g.nodes@,
                    final(self).g.edges@,
                    old(self).indirects@,
                    old(self).fmts@,
                    old(self).has_untyped_symbols,
                    chosen,
                    old(self).indirects@.len() as int,
                ),
    {
        let ghost nodes0 = self.g.nodes@;
        let ghost edges0 = self.g.edges@;
        proof {
            assert(forall|q: int|
                0 <= q < edges0.len() ==> (#[trigger] edges0[q]).0 < nodes0.len() && edges0[q].1
                    < nodes0.len());
        }
        // the receiver alias of the formatter shape varies across builds:
        // collect the candidates and pick the canonical one
        let mut cands: Vec<String> = Vec::new();
        let nb = self.indirects.len();
        let mut b: usize = 0;
        while b < nb
            invariant
                nb == self.indirects@.len(),
                0 <= b <= nb,
                self.wf(),
                *self == *old(self),
            decreases nb - b,
        {
            match void_candidate(&self.indirects[b].0) {
                Some(a) => {
                    cands.push(a);
                },
                None => {},
            }
            b = b + 1;
        }
        let one_true_void = choose_void(&cands);
        let ghost chosen: Option<Seq<char>> = match one_true_void {
            Some(ref v) => Some(v@),
            None => None,
        };
        // indirect buckets
        let mut b2: usize = 0;
        while b2 < nb
            invariant
                nb == self.indirects@.len(),
                0 <= b2 <= nb,
                self.wf(),
                self.indirects == old(self).indirects,
                self.dynamics == old(self).dynamics,
                self.fmts == old(self).fmts,
                self.has_untyped_symbols == old(self).has_untyped_symbols,
                self.has_stack_usage_info == old(self).has_stack_usage_info,
                self.g.nodes@.len() >= nodes0.len(),
                nodes0 == old(self).g.nodes@,
                edges0 == old(self).g.edges@,
                forall|v: int| 0 <= v < nodes0.len() ==> #[trigger] self.g.nodes@[v] == nodes0[v],
                forall|q: int|
                    0 <= q < self.g.edges@.len() ==> (edges0.contains(
                        #[trigger] self.g.edges@[q],
                    ) || self.g.edges@[q].0 != self.g.edges@[q].1),
                forall|e: (usize, usize)| edges0.contains(e) ==> self.g.edges@.contains(e),
                crate::graph::edges_unique(edges0) ==> crate::graph::edges_unique(self.g.edges@),
                forall|q: int|
                    0 <= q < edges0.len() ==> (#[trigger] edges0[q]).0 < nodes0.len()
                        && edges0[q].1 < nodes0.len(),
                chosen == (match one_true_void {
                    Some(v) => Some(v@),
                    None => None::<Seq<char>>,
                }),
                indirect_sites_expanded(
                    self.g.nodes@,
                    self.g.edges@,
                    old(self).indirects@,
                    old(self).fmts@,
                    old(self).has_untyped_symbols,
                    chosen,
                    b2 as int,
                ),
            decreases nb - b2,
        {
            let ghost pre_nodes = self.g.nodes@;
            let ghost pre_edges = self.g.edges@;
            if self.indirects[b2].1.called {
                let is_fmt_site = match &one_true_void {
                    Some(v) => match void_candidate(&self.indirects[b2].0) {
                        Some(a) => str_eq(a.as_str(), v.as_str()),
                        None => false,
                    },
                    None => false,
                };
                proof {
                    assert(is_fmt_site == (chosen matches Some(v) && spec_void_candidate(
                        self.indirects@[b2 as int].0,
                    ) == Some(v)));
                }
                let label = if is_fmt_site {
                    let mut rewritten = self.indirects[b2].0.deep_clone();
                    if rewritten.inputs.len() >= 1 {
                        rewritten.inputs[0] = Type::Alias(String::from_str("fmt::Void"));
                    }
                    sig_to_string(&rewritten)
                } else {
                    sig_to_string(&self.indirects[b2].0)
                };
                let callers = copy_usizes(&self.indirects[b2].1.callers);
                let callees = if is_fmt_site {
                    copy_usizes(&self.fmts)
                } else {
                    copy_usizes(&self.indirects[b2].1.callees)
                };
                self.expand_site(label, &callers, &callees, true, Ghost(nodes0), Ghost(edges0));
            }
            proof {
                lemma_sites_persist(
                    pre_nodes,
                    self.g.nodes@,
                    pre_edges,
                    self.g.edges@,
                    old(self).indirects@,
                    old(self).dynamics@,
                    old(self).fmts@,
                    old(self).has_untyped_symbols,
                    chosen,
                    b2 as int,
                    0,
                );
            }
            b2 = b2 + 1;
        }
        // dynamic-dispatch buckets: the callee set is closed over the erased
        // receiver, so no unknown callee is added
        let ndy = self.dynamics.len();
        let mut b3: usize = 0;
        while b3 < ndy
            invariant
                ndy == self.dynamics@.len(),
                nb == self.indirects@.len(),
                0 <= b3 <= ndy,
                self.wf(),
                self.indirects == old(self).indirects,
                self.dynamics == old(self).dynamics,
                self.fmts == old(self).fmts,
                self.has_untyped_symbols == old(self).has_untyped_symbols,
                self.has_stack_usage_info == old(self).has_stack_usage_info,
                self.g.nodes@.len() >= nodes0.len(),
                nodes0 == old(self).g.nodes@,
                edges0 == old(self).g.edges@,
                forall|v: int| 0 <= v < nodes0.len() ==> #[trigger] self.g.nodes@[v] == nodes0[v],
                forall|q: int|
                    0 <= q < self.g.edges@.len() ==> (edges0.contains(
                        #[trigger] self.g.edges@[q],
                    ) || self.g.edges@[q].0 != self.g.edges@[q].1),
                forall|e: (usize, usize)| edges0.contains(e) ==> self.g.edges@.contains(e),
                crate::graph::edges_unique(edges0) ==> crate::graph::edges_unique(self.g.edges@),
                forall|q: int|
                    0 <= q < edges0.len() ==> (#[trigger] edges0[q]).0 < nodes0.len()
                        && edges0[q].1 < nodes0.len(),
                indirect_sites_expanded(
                    self.g.nodes@,
                    self.g.edges@,
                    old(self).indirects@,
                    old(self).fmts@,
                    old(self).has_untyped_symbols,
                    chosen,
                    nb as int,
                ),
                dynamic_sites_expanded(
                    self.g.nodes@,
                    self.g.edges@,
                    old(self).dynamics@,
                    b3 as int,
                ),
            decreases ndy - b3,
        {
            let ghost pre_nodes = self.g.nodes@;
            let ghost pre_edges = self.g.edges@;
            if self.dynamics[b3].1.called {
                let label = sig_to_string(&self.dynamics[b3].0);
                let callers = copy_usizes(&self.dynamics[b3].1.callers);
                let callees = copy_usizes(&self.dynamics[b3].1.callees);
                self.expand_site(label, &callers, &callees, false, Ghost(nodes0), Ghost(edges0));
            }
            proof {
                lemma_sites_persist(
                    pre_nodes,
                    self.g.nodes@,
                    pre_edges,
                    self.g.edges@,
                    old(self).indirects@,
                    old(self).dynamics@,
                    old(self).fmts@,
                    old(self).has_untyped_symbols,
                    chosen,
                    nb as int,
                    b3 as int,
                );
            }
            b3 = b3 + 1;
        }
        proof {
            assert(indirect_sites_expanded(
                self.g.nodes@,
                self.g.edges@,
                old(self).indirects@,
                old(self).fmts@,
                old(self).has_untyped_symbols,
                chosen,
                old(self).indirects@.len() as int,
            ));
        }
    }

    /// Materializes one dispatch site: a fictitious node of zero local stack
    /// labeled with the signature and a function-pointer mark, an edge from
    /// every caller and to every callee, and, for indirect sites in a
    /// program with untyped symbols, to a fresh unknown node.
    fn expand_site(
        &mut self,
        label: String,
        callers: &Vec<usize>,
        callees: &Vec<usize>,
        indirect_site: bool,
        Ghost(nodes0): Ghost<Seq<Node>>,
        Ghost(edges0): Ghost<Seq<(usize, usize)>>,
    )
        requires
            old(self).wf(),
            forall|j: int| 0 <= j < callers@.len() ==> (#[trigger] callers@[j]) < old(self).g.nodes@.len(),
            forall|j: int| 0 <= j < callees@.len() ==> (#[trigger] callees@[j]) < old(self).g.nodes@.len(),
            nodes0.len() <= old(self).g.nodes@.len(),
            forall|v: int| 0 <= v < nodes0.len() ==> #[trigger] old(self).g.nodes@[v] == nodes0[v],
            forall|q: int|
                0 <= q < old(self).g.edges@.len() ==> (edges0.contains(
                    #[trigger] old(self).g.edges@[q],
                ) || old(self).g.edges@[q].0 != old(self).g.edges@[q].1),
            forall|q: int| 0 <= q < edges0.len() ==> edges0[q].0 < old(self).g.nodes@.len()
                && edges0[q].1 < old(self).g.nodes@.len(),
        ensures
            final(self).wf(),
            final(self).g.nodes@.len() >= old(self).g.nodes@.len(),
            forall|v: int|
                0 <= v < old(self).g.nodes@.len() ==> #[trigger] final(self).g.nodes@[v] == old(
                    self,
                ).g.nodes@[v],
            forall|q: int|
                0 <= q < final(self).g.edges@.len() ==> (edges0.contains(
                    #[trigger] final(self).g.edges@[q],
                ) || final(self).g.edges@[q].0 != final(self).g.edges@[q].1),
            forall|e: (usize, usize)|
                old(self).g.edges@.contains(e) ==> final(self).g.edges@.contains(e),
            crate::graph::edges_unique(old(self).g.edges@) ==> crate::graph::edges_unique(
                final(self).g.edges@,
            ),
            site_expanded(
                final(self).g.nodes@,
                final(self).g.edges@,
                label@ + "*"@,
                callers@,
                callees@,
                indirect_site && old(self).has_untyped_symbols,
            ),
            final(self).has_stack_usage_info == old(self).has_stack_usage_info,
            final(self).indirects == old(self).indirects,
            final(self).dynamics == old(self).dynamics,
            final(self).fmts == old(self).fmts,
            final(self).has_untyped_symbols == old(self).has_untyped_symbols,
    {
        let ghost label_view = label@;
        let name = label.concat("*");
        let fic = self.g.add_node(Node(name, Some(0), true));
        let ghost fic_node = self.g.nodes@[fic as int];
        proof {
            assert(fic_node.name@ == label_view + "*"@);
        }
        let nc = callers.len();
        let mut j: usize = 0;
        while j < nc
            invariant
                nc == callers@.len(),
                0 <= j <= nc,
                self.wf(),
                fic < self.g.nodes@.len(),
                self.g.nodes@[fic as int] == fic_node,
                fic_node.dashed,
                fic_node.local == Local::Exact(0),
                fic_node.name@ == label_view + "*"@,
                forall|jj: int| 0 <= jj < callers@.len() ==> (#[trigger] callers@[jj]) < fic,
                forall|jj: int| 0 <= jj < callees@.len() ==> (#[trigger] callees@[jj]) < fic,
                self.g.nodes@.len() >= old(self).g.nodes@.len(),
                forall|v: int|
                    0 <= v < old(self).g.nodes@.len() ==> #[trigger] self.g.nodes@[v] == old(
                        self,
                    ).g.nodes@[v],
                forall|q: int|
                    0 <= q < self.g.edges@.len() ==> (edges0.contains(#[trigger] self.g.edges@[q])
                        || self.g.edges@[q].0 != self.g.edges@[q].1),
                forall|e: (usize, usize)|
                    old(self).g.edges@.contains(e) ==> self.g.edges@.contains(e),
                crate::graph::edges_unique(old(self).g.edges@) ==> crate::graph::edges_unique(
                    self.g.edges@,
                ),
                forall|jj: int|
                    0 <= jj < j ==> self.g.edges@.contains(((#[trigger] callers@[jj]), fic)),
                self.indirects == old(self).indirects,
                self.dynamics == old(self).dynamics,
                self.fmts == old(self).fmts,
                self.has_untyped_symbols == old(self).has_untyped_symbols,
                self.has_stack_usage_info == old(self).has_stack_usage_info,
            decreases nc - j,
        {
            self.g.add_edge_dedup(callers[j], fic);
            j = j + 1;
        }
        let ghost unknown_idx: usize = 0;
        let untyped = indirect_site && self.has_untyped_symbols;
        if untyped {
            // a binary blob could hide a matching function: keep the bound
            // honest with an unknown callee
            let q = self.g.add_node(Node(String::from_str("?"), None, false));
            proof {
                reveal_strlit("?");
                assert(self.g.nodes@[q as int].name@ == "?"@);
            }
            self.g.add_edge_dedup(fic, q);
            proof {
                unknown_idx = q;
            }
        }
        let ghost mid_nodes = self.g.nodes@;
        let ne = callees.len();
        let mut j2: usize = 0;
        while j2 < ne
            invariant
                ne == callees@.len(),
                0 <= j2 <= ne,
                self.wf(),
                fic < self.g.nodes@.len(),
                self.g.nodes@ == mid_nodes,
                self.g.nodes@[fic as int] == fic_node,
                fic_node.dashed,
                fic_node.local == Local::Exact(0),
                fic_node.name@ == label_view + "*"@,
                untyped == (indirect_site && old(self).has_untyped_symbols),
                untyped ==> unknown_idx < self.g.nodes@.len()
                    && self.g.nodes@[unknown_idx as int].name@ == "?"@
                    && self.g.nodes@[unknown_idx as int].local is Unknown
                    && self.g.edges@.contains((fic, unknown_idx)),
                forall|jj: int| 0 <= jj < callees@.len() ==> (#[trigger] callees@[jj]) < fic,
                self.g.nodes@.len() >= old(self).g.nodes@.len(),
                forall|v: int|
                    0 <= v < old(self).g.nodes@.len() ==> #[trigger] self.g.nodes@[v] == old(
                        self,
                    ).g.nodes@[v],
                forall|q: int|
                    0 <= q < self.g.edges@.len() ==> (edges0.contains(#[trigger] self.g.edges@[q])
                        || self.g.edges@[q].0 != self.g.edges@[q].1),
                forall|e: (usize, usize)|
                    old(self).g.edges@.contains(e) ==> self.g.edges@.contains(e),
                crate::graph::edges_unique(old(self).g.edges@) ==> crate::graph::edges_unique(
                    self.g.edges@,
                ),
                forall|jj: int|
                    0 <= jj < callers@.len() ==> self.g.edges@.contains(
                        ((#[trigger] callers@[jj]), fic),
                    ),
                forall|jj: int|
                    0 <= jj < j2 ==> self.g.edges@.contains((fic, (#[trigger] callees@[jj]))),
                self.indirects == old(self).indirects,
                self.dynamics == old(self).dynamics,
                self.fmts == old(self).fmts,
                self.has_untyped_symbols == old(self).has_untyped_symbols,
                self.has_stack_usage_info == old(self).has_stack_usage_info,
            decreases ne - j2,
        {
            self.g.add_edge_dedup(fic, callees[j2]);
            j2 = j2 + 1;
        }
        proof {
            assert(site_node_ok(
                self.g.nodes@,
                self.g.edges@,
                fic,
                callers@,
                callees@,
                untyped,
            ));
        }
    }
}

/// One dispatch site materialized at node `f`: the node is fictitious with
/// zero local stack, an edge arrives from every caller, an edge leaves to
/// every callee, and, when asked, an unknown node is among its callees.
pub open spec fn site_node_ok(
    nodes: Seq<Node>,
    edges: Seq<(usize, usize)>,
    f: usize,
    callers: Seq<usize>,
    callees: Seq<usize>,
    untyped: bool,
) -> bool {
    &&& f < nodes.len()
    &&& nodes[f as int].dashed
    &&& nodes[f as int].local == Local::Exact(0)
    &&& forall|j: int| 0 <= j < callers.len() ==> edges.contains(((#[trigger] callers[j]), f))
    &&& forall|j: int| 0 <= j < callees.len() ==> edges.contains((f, (#[trigger] callees[j])))
    &&& (untyped ==> exists|q: usize|
        q < nodes.len() && nodes[q as int].name@ == "?"@ && nodes[q as int].local is Unknown
            && edges.contains((f, q)))
}

/// Some fictitious node carries the given label and joins the callers to the
/// callees.
pub open spec fn site_expanded(
    nodes: Seq<Node>,
    edges: Seq<(usize, usize)>,
    label: Seq<char>,
    callers: Seq<usize>,
    callees: Seq<usize>,
    untyped: bool,
) -> bool {
    exists|f: usize|
        #[trigger] site_node_ok(nodes, edges, f, callers, callees, untyped) && nodes[f as int].name@
            == label
}

/// Some fictitious node joins the callers to the callees.
pub open spec fn site_unlabeled(
    nodes: Seq<Node>,
    edges: Seq<(usize, usize)>,
    callers: Seq<usize>,
    callees: Seq<usize>,
    untyped: bool,
) -> bool {
    exists|f: usize| #[trigger] site_node_ok(nodes, edges, f, callers, callees, untyped)
}

/// The first `upto` indirect buckets are expanded: a called bucket whose
/// receiver alias is the chosen erased-void one reaches the formatter set,
/// any other called bucket reaches its own callees under its rendered
/// signature.
pub open spec fn indirect_sites_expanded(
    nodes: Seq<Node>,
    edges: Seq<(usize, usize)>,
    buckets: Seq<(FnSig, Bucket)>,
    fmts: Seq<usize>,
    untyped: bool,
    chosen: Option<Seq<char>>,
    upto: int,
) -> bool {
    forall|b: int|
        0 <= b < upto && b < buckets.len() && (#[trigger] buckets[b]).1.called ==> (if (
        chosen matches Some(v) && spec_void_candidate(buckets[b].0) == Some(v)) {
            site_unlabeled(nodes, edges, buckets[b].1.callers@, fmts, untyped)
        } else {
            site_expanded(
                nodes,
                edges,
                sig_str(buckets[b].0) + "*"@,
                buckets[b].1.callers@,
                buckets[b].1.callees@,
                untyped,
            )
        })
}

/// The first `upto` dynamic buckets are expanded, each under its rendered
/// signature and without an unknown callee.
pub open spec fn dynamic_sites_expanded(
    nodes: Seq<Node>,
    edges: Seq<(usize, usize)>,
    buckets: Seq<(FnSig, Bucket)>,
    upto: int,
) -> bool {
    forall|b: int|
        0 <= b < upto && b < buckets.len() && (#[trigger] buckets[b]).1.called ==> site_expanded(
            nodes,
            edges,
            sig_str(buckets[b].0) + "*"@,
            buckets[b].1.callers@,
            buckets[b].1.callees@,
            false,
        )
}

/// A materialized site survives appending nodes and keeping every edge.
pub proof fn lemma_site_node_persists(
    nodes1: Seq<Node>,
    nodes2: Seq<Node>,
    edges1: Seq<(usize, usize)>,
    edges2: Seq<(usize, usize)>,
    f: usize,
    callers: Seq<usize>,
    callees: Seq<usize>,
    untyped: bool,
)
    requires
        site_node_ok(nodes1, edges1, f, callers, callees, untyped),
        nodes2.len() >= nodes1.len(),
        forall|v: int| 0 <= v < nodes1.len() ==> #[trigger] nodes2[v] == nodes1[v],
        forall|e: (usize, usize)| edges1.contains(e) ==> edges2.contains(e),
    ensures
        site_node_ok(nodes2, edges2, f, callers, callees, untyped),
        nodes2[f as int] == nodes1[f as int],
{
    if untyped {
        let q = choose|q: usize|
            q < nodes1.len() && nodes1[q as int].name@ == "?"@ && nodes1[q as int].local is Unknown
                && edges1.contains((f, q));
        assert(nodes2[q as int] == nodes1[q as int]);
        assert(edges2.contains((f, q)));
    }
}

/// Every site already materialized survives one more expansion step.
proof fn lemma_sites_persist(
    nodes1: Seq<Node>,
    nodes2: Seq<Node>,
    edges1: Seq<(usize, usize)>,
    edges2: Seq<(usize, usize)>,
    indirects: Seq<(FnSig, Bucket)>,
    dynamics: Seq<(FnSig, Bucket)>,
    fmts: Seq<usize>,
    untyped: bool,
    chosen: Option<Seq<char>>,
    ind_upto: int,
    dyn_upto: int,
)
    requires
        nodes2.len() >= nodes1.len(),
        forall|v: int| 0 <= v < nodes1.len() ==> #[trigger] nodes2[v] == nodes1[v],
        forall|e: (usize, usize)| edges1.contains(e) ==> edges2.contains(e),
        indirect_sites_expanded(nodes1, edges1, indirects, fmts, untyped, chosen, ind_upto),
        dynamic_sites_expanded(nodes1, edges1, dynamics, dyn_upto),
    ensures
        indirect_sites_expanded(nodes2, edges2, indirects, fmts, untyped, chosen, ind_upto),
        dynamic_sites_expanded(nodes2, edges2, dynamics, dyn_upto),
{
    assert forall|b: int|
        0 <= b < ind_upto && b < indirects.len() && (#[trigger] indirects[b]).1.called implies (if (
    chosen matches Some(v) && spec_void_candidate(indirects[b].0) == Some(v)) {
        site_unlabeled(nodes2, edges2, indirects[b].1.callers@, fmts, untyped)
    } else {
        site_expanded(
            nodes2,
            edges2,
            sig_str(indirects[b].0) + "*"@,
            indirects[b].1.callers@,
            indirects[b].1.callees@,
            untyped,
        )
    }) by {
        if chosen matches Some(v) && spec_void_candidate(indirects[b].0) == Some(v) {
            let f = choose|f: usize|
                #[trigger] site_node_ok(nodes1, edges1, f, indirects[b].1.callers@, fmts, untyped);
            lemma_site_node_persists(
                nodes1,
                nodes2,
                edges1,
                edges2,
                f,
                indirects[b].1.callers@,
                fmts,
                untyped,
            );
        } else {
            let f = choose|f: usize|
                #[trigger] site_node_ok(
                    nodes1,
                    edges1,
                    f,
                    indirects[b].1.callers@,
                    indirects[b].1.callees@,
                    untyped,
                ) && nodes1[f as int].name@ == sig_str(indirects[b].0) + "*"@;
            lemma_site_node_persists(
                nodes1,
                nodes2,
                edges1,
                edges2,
                f,
                indirects[b].1.callers@,
                indirects[b].1.callees@,
                untyped,
            );
        }
    }
    assert forall|b: int|
        0 <= b < dyn_upto && b < dynamics.len() && (#[trigger] dynamics[b]).1.called implies site_expanded(
        nodes2,
        edges2,
        sig_str(dynamics[b].0) + "*"@,
        dynamics[b].1.callers@,
        dynamics[b].1.callees@,
        false,
    ) by {
        let f = choose|f: usize|
            #[trigger] site_node_ok(
                nodes1,
                edges1,
                f,
                dynamics[b].1.callers@,
                dynamics[b].1.callees@,
                false,
            ) && nodes1[f as int].name@ == sig_str(dynamics[b].0) + "*"@;
        lemma_site_node_persists(
            nodes1,
            nodes2,
            edges1,
            edges2,
            f,
            dynamics[b].1.callers@,
            dynamics[b].1.callees@,
            false,
        );
    }
}

/// The graph under construction, with the tables the phases share.
pub struct CallGraphBuilder {
    /// The call graph built so far.
    pub g: Graph,
    /// Canonical name to node index, one entry per real symbol node.
    pub indices: Vec<(String, usize)>,
    /// Every symbol name to its canonical name.
    pub aliases: Vec<(String, String)>,
    /// Dehashed demangled name to the number of canonical names sharing it.
    pub ambiguous: Vec<(String, usize)>,
    /// Indirect-call buckets, keyed by exact signature.
    pub indirects: Vec<(FnSig, Bucket)>,
    /// Dynamic-dispatch buckets, keyed by erased signature.
    pub dynamics: Vec<(FnSig, Bucket)>,
    /// Nodes whose signature has the formatter shape.
    pub fmts: Vec<usize>,
    /// Trait-and-method keys of the default methods seen among the defines.
    pub default_methods: Vec<String>,
    /// Canonical names of the functions defined in the intermediate
    /// representation and linked in.
    pub defined: Vec<String>,
    /// Canonical names of the functions holding inline assembly.
    pub asm_fns: Vec<String>,
    /// Whether some live symbol carries no type information at all.
    pub has_untyped_symbols: bool,
    /// Whether any stack-usage entry was found for a live symbol.
    pub has_stack_usage_info: bool,
    /// Load address to canonical name.
    pub addr2name: Vec<(u64, String)>,
}

impl CallGraphBuilder {
    /// Every table entry points at a node of the graph; canonical names name
    /// exactly one real node each.
    pub open spec fn wf(self) -> bool {
        &&& self.g.wf()
        &&& forall|v: int| 0 <= v < self.g.nodes@.len() ==> (#[trigger] self.g.nodes@[v]).max is None
        &&& forall|p: int|
            0 <= p < self.indices@.len() ==> {
                &&& (#[trigger] self.indices@[p]).1 < self.g.nodes@.len()
                &&& self.g.nodes@[self.indices@[p].1 as int].name@ == self.indices@[p].0@
                &&& !self.g.nodes@[self.indices@[p].1 as int].dashed
            }
        &&& forall|p1: int, p2: int|
            0 <= p1 < self.indices@.len() && 0 <= p2 < self.indices@.len() && (
            #[trigger] self.indices@[p1]).0@ == (#[trigger] self.indices@[p2]).0@ ==> p1 == p2
        &&& forall|p1: int, p2: int|
            0 <= p1 < self.indices@.len() && 0 <= p2 < self.indices@.len() && (
            #[trigger] self.indices@[p1]).1 == (#[trigger] self.indices@[p2]).1 ==> p1 == p2
        &&& forall|b: int, j: int|
            0 <= b < self.indirects@.len() && 0 <= j < (#[trigger] self.indirects@[b]).1.callees@.len()
                ==> (#[trigger] self.indirects@[b].1.callees@[j]) < self.g.nodes@.len()
        &&& forall|b: int, j: int|
            0 <= b < self.indirects@.len() && 0 <= j < (#[trigger] self.indirects@[b]).1.callers@.len()
                ==> (#[trigger] self.indirects@[b].1.callers@[j]) < self.g.nodes@.len()
        &&& forall|b: int, j: int|
            0 <= b < self.dynamics@.len() && 0 <= j < (#[trigger] self.dynamics@[b]).1.callees@.len()
                ==> (#[trigger] self.dynamics@[b].1.callees@[j]) < self.g.nodes@.len()
        &&& forall|b: int, j: int|
            0 <= b < self.dynamics@.len() && 0 <= j < (#[trigger] self.dynamics@[b]).1.callers@.len()
                ==> (#[trigger] self.dynamics@[b].1.callers@[j]) < self.g.nodes@.len()
        &&& forall|j: int| 0 <= j < self.fmts@.len() ==> (#[trigger] self.fmts@[j]) < self.g.nodes@.len()
    }

    /// For every canonical name there is at most one real node bearing it:
    /// two index entries whose nodes share a name are the same entry.
    pub proof fn lemma_unique_canonical_node(self, p1: int, p2: int)
        requires
            self.wf(),
            0 <= p1 < self.indices@.len(),
            0 <= p2 < self.indices@.len(),
            self.g.nodes@[self.indices@[p1].1 as int].name@
                == self.g.nodes@[self.indices@[p2].1 as int].name@,
        ensures
            p1 == p2,
            self.indices@[p1].1 == self.indices@[p2].1,
    {
        assert(self.indices@[p1].0@ == self.indices@[p2].0@);
    }

    /// An empty builder.
    pub fn new() -> (b: CallGraphBuilder)
        ensures
            b.wf(),
            b.g.nodes@.len() == 0,
            b.g.edges@.len() == 0,
            b.indices@.len() == 0,
            b.aliases@.len() == 0,
            b.indirects@.len() == 0,
            b.dynamics@.len() == 0,
            b.fmts@.len() == 0,
            b.ambiguous@.len() == 0,
            b.default_methods@.len() == 0,
            b.defined@.len() == 0,
            b.asm_fns@.len() == 0,
            b.addr2name@.len() == 0,
            !b.has_untyped_symbols,
            !b.has_stack_usage_info,
    {
        CallGraphBuilder {
            g: Graph::new(),
            indices: Vec::new(),
            aliases: Vec::new(),
            ambiguous: Vec::new(),
            indirects: Vec::new(),
            dynamics: Vec::new(),
            fmts: Vec::new(),
            default_methods: Vec::new(),
            defined: Vec::new(),
            asm_fns: Vec::new(),
            has_untyped_symbols: false,
            has_stack_usage_info: false,
            addr2name: Vec::new(),
        }
    }

    /// Adds one node per defined symbol: chooses its canonical name, binds
    /// every alias to it, records its address, local stack usage, and
    /// ambiguity count, and sorts it into the dispatch buckets by its typed
    /// item. Succeeds exactly when every symbol offers a canonical name.
    /// The alias table comes out closed: every canonical name resolves to
    /// itself.
    #[verifier::rlimit(100)]
    pub fn add_symbols(
        &mut self,
        symbols: &Vec<crate::symbols::DefinedSymbol>,
        stack: &Vec<(String, u64)>,
        defines: &Vec<crate::ir::Define>,
        declares: &Vec<crate::ir::Declare>,
    ) -> (r: Result<(), BuildError>)
        requires
            old(self).g.nodes@.len() == 0,
            old(self).g.edges@.len() == 0,
            old(self).indices@.len() == 0,
            old(self).aliases@.len() == 0,
            old(self).indirects@.len() == 0,
            old(self).dynamics@.len() == 0,
            old(self).fmts@.len() == 0,
            old(self).ambiguous@.len() == 0,
            !old(self).has_stack_usage_info,
            old(self).wf(),
            forall|p: int| 0 <= p < symbols@.len() ==> (#[trigger] symbols@[p]).names@.len() >= 1,
            names_disjoint(symbols@),
        ensures
            final(self).wf(),
            alias_closed(final(self).aliases@),
            r is Ok <==> all_canonical(symbols@, stack@),
            r is Ok ==> final(self).has_stack_usage_info == any_stack_entry(
                symbols@,
                stack@,
                symbols@.len() as int,
            ),
            r is Ok ==> forall|sp: int, i: int|
                0 <= sp < symbols@.len() && 0 <= i < symbols@[sp].names@.len() ==> alias_of(
                    final(self).aliases@,
                    (#[trigger] symbols@[sp].names@[i])@,
                    0,
                ) == Some(canon_view(symbols@, stack@, sp)),
            r is Ok ==> {
                &&& final(self).g.nodes@.len() == symbols@.len()
                &&& final(self).g.edges@.len() == 0
                &&& forall|p: int|
                    0 <= p < symbols@.len() ==> {
                        &&& (#[trigger] final(self).g.nodes@[p]).name@ == canon_view(
                            symbols@,
                            stack@,
                            p,
                        )
                        &&& final(self).g.nodes@[p].local == (
                        match crate::symbols::lookup(stack@, canon_view(symbols@, stack@, p)) {
                            Some(v) => Local::Exact(v),
                            None => Local::Unknown,
                        })
                        &&& final(self).g.nodes@[p].max is None
                        &&& !final(self).g.nodes@[p].dashed
                    }
            },
            r matches Err(e) ==> e is MissingCanonical,
    {
        let ns = symbols.len();
        let mut s: usize = 0;
        while s < ns
            invariant
                ns == symbols@.len(),
                0 <= s <= ns,
                forall|p: int| 0 <= p < symbols@.len() ==> (#[trigger] symbols@[p]).names@.len() >= 1,
                names_disjoint(symbols@),
                self.g.edges@.len() == 0,
                self.g.nodes@.len() == s,
                self.indices@.len() == s,
                forall|p: int|
                    0 <= p < s ==> crate::symbols::spec_canonical_index(
                        (#[trigger] symbols@[p]).names@,
                        stack@,
                    ) is Some,
                forall|p: int|
                    0 <= p < s ==> {
                        &&& (#[trigger] self.g.nodes@[p]).name@ == canon_view(symbols@, stack@, p)
                        &&& self.g.nodes@[p].local == (match crate::symbols::lookup(
                            stack@,
                            canon_view(symbols@, stack@, p),
                        ) {
                            Some(v) => Local::Exact(v),
                            None => Local::Unknown,
                        })
                        &&& self.g.nodes@[p].max is None
                        &&& !self.g.nodes@[p].dashed
                    },
                forall|p: int|
                    0 <= p < s ==> (#[trigger] self.indices@[p]).1 == p && self.indices@[p].0@
                        == canon_view(symbols@, stack@, p),
                alias_closed(self.aliases@),
                forall|sp: int, i: int|
                    0 <= sp < s && 0 <= i < symbols@[sp].names@.len() ==> alias_of(
                        self.aliases@,
                        (#[trigger] symbols@[sp].names@[i])@,
                        0,
                    ) == Some(canon_view(symbols@, stack@, sp)),
                forall|q: int|
                    0 <= q < self.aliases@.len() ==> exists|sp: int, i: int|
                        0 <= sp < s && 0 <= i < symbols@[sp].names@.len() && (
                        #[trigger] self.aliases@[q]).0@ == symbols@[sp].names@[i]@,
                forall|b: int, j: int|
                    0 <= b < self.indirects@.len() && 0 <= j < (#[trigger] self.indirects@[b]).1.callees@.len()
                        ==> (#[trigger] self.indirects@[b].1.callees@[j]) < s,
                forall|b: int, j: int|
                    0 <= b < self.indirects@.len() && 0 <= j < (#[trigger] self.indirects@[b]).1.callers@.len()
                        ==> (#[trigger] self.indirects@[b].1.callers@[j]) < s,
                forall|b: int, j: int|
                    0 <= b < self.dynamics@.len() && 0 <= j < (#[trigger] self.dynamics@[b]).1.callees@.len()
                        ==> (#[trigger] self.dynamics@[b].1.callees@[j]) < s,
                forall|b: int, j: int|
                    0 <= b < self.dynamics@.len() && 0 <= j < (#[trigger] self.dynamics@[b]).1.callers@.len()
                        ==> (#[trigger] self.dynamics@[b].1.callers@[j]) < s,
                forall|j: int| 0 <= j < self.fmts@.len() ==> (#[trigger] self.fmts@[j]) < s,
                forall|p: int| 0 <= p < self.ambiguous@.len() ==> (#[trigger] self.ambiguous@[p]).1 <= s,
                self.has_stack_usage_info == any_stack_entry(symbols@, stack@, s as int),
                self.wf(),
            decreases ns - s,
        {
            let names = &symbols[s].names;
            let ci = match crate::symbols::choose_canonical(names, stack) {
                Some(ci) => ci,
                None => {
                    return Err(BuildError::MissingCanonical);
                },
            };
            let canonical = names[ci].clone();
            proof {
                assert(canonical@ == canon_view(symbols@, stack@, s as int));
            }
            // bind every name of this address to the canonical one
            let ghost a0 = self.aliases@;
            let ghost snap = *self;
            let nn = names.len();
            let mut j: usize = 0;
            while j < nn
                invariant
                    nn == names@.len(),
                    names == symbols@[s as int].names,
                    0 <= j <= nn,
                    ci < nn,
                    canonical@ == names@[ci as int]@,
                    self.aliases@.len() == a0.len() + j,
                    forall|q: int| 0 <= q < a0.len() ==> #[trigger] self.aliases@[q] == a0[q],
                    forall|q: int|
                        a0.len() <= q < self.aliases@.len() ==> (#[trigger] self.aliases@[q]).0@
                            == names@[q - a0.len()]@ && self.aliases@[q].1@ == canonical@,
                    self.g == snap.g,
                    self.indices == snap.indices,
                    self.ambiguous == snap.ambiguous,
                    self.indirects == snap.indirects,
                    self.dynamics == snap.dynamics,
                    self.fmts == snap.fmts,
                    self.default_methods == snap.default_methods,
                    self.defined == snap.defined,
                    self.asm_fns == snap.asm_fns,
                    self.has_untyped_symbols == snap.has_untyped_symbols,
                    self.has_stack_usage_info == snap.has_stack_usage_info,
                    self.addr2name == snap.addr2name,
                decreases nn - j,
            {
                self.aliases.push((names[j].clone(), canonical.clone()));
                j = j + 1;
            }
            proof {
                let a1 = self.aliases@;
                // names of this symbol never occur among the old keys
                assert forall|q: int|
                    0 <= q < a0.len() implies (#[trigger] a0[q]).0@ != canonical@ by {
                    let (sp, i) = choose|sp: int, i: int|
                        0 <= sp < s && 0 <= i < symbols@[sp].names@.len() && a0[q].0@
                            == symbols@[sp].names@[i]@;
                    assert(symbols@[sp].names@[i]@ != symbols@[s as int].names@[ci as int]@);
                }
                lemma_alias_of_absent(a0, canonical@, 0);
                assert forall|p: int|
                    0 <= p < a1.len() implies alias_of(a1, (#[trigger] a1[p]).1@, 0) == Some(
                    a1[p].1@,
                ) by {
                    if p < a0.len() {
                        lemma_alias_of_extend(a0, a1, a0[p].1@, 0);
                    } else {
                        lemma_alias_of_skip(a0, a1, canonical@, 0);
                        assert(a1[a0.len() + ci].0@ == canonical@);
                        lemma_alias_of_block_value(a1, canonical@, canonical@, a0.len() as int);
                    }
                }
                // every name seen so far resolves to its symbol's canonical
                assert forall|sp: int, i: int|
                    0 <= sp < s + 1 && 0 <= i < symbols@[sp].names@.len() implies alias_of(
                    a1,
                    (#[trigger] symbols@[sp].names@[i])@,
                    0,
                ) == Some(canon_view(symbols@, stack@, sp)) by {
                    if sp < s {
                        lemma_alias_of_extend(a0, a1, symbols@[sp].names@[i]@, 0);
                    } else {
                        let nm = symbols@[s as int].names@[i]@;
                        assert forall|q: int| 0 <= q < a0.len() implies (#[trigger] a0[q]).0@ != nm by {
                            let (sq, iq) = choose|sq: int, iq: int|
                                0 <= sq < s && 0 <= iq < symbols@[sq].names@.len() && a0[q].0@
                                    == symbols@[sq].names@[iq]@;
                            assert(symbols@[sq].names@[iq]@ != symbols@[s as int].names@[i]@);
                        }
                        lemma_alias_of_absent(a0, nm, 0);
                        lemma_alias_of_skip(a0, a1, nm, 0);
                        assert(a1[a0.len() + i].0@ == nm);
                        lemma_alias_of_block_value(a1, nm, canonical@, a0.len() as int);
                    }
                }
                assert forall|q: int|
                    0 <= q < a1.len() implies exists|sp: int, i: int|
                        0 <= sp < s + 1 && 0 <= i < symbols@[sp].names@.len() && (
                        #[trigger] a1[q]).0@ == symbols@[sp].names@[i]@ by {
                    if q < a0.len() {
                        let (sp, i) = choose|sp: int, i: int|
                            0 <= sp < s && 0 <= i < symbols@[sp].names@.len() && a0[q].0@
                                == symbols@[sp].names@[i]@;
                        assert(0 <= sp < s + 1 && 0 <= i < symbols@[sp].names@.len() && a1[q].0@
                            == symbols@[sp].names@[i]@);
                    } else {
                        let i = q - a0.len();
                        assert(0 <= s < s + 1 && 0 <= i < symbols@[s as int].names@.len()
                            && a1[q].0@ == symbols@[s as int].names@[i]@);
                    }
                }
            }
            self.addr2name.push((symbols[s].address, canonical.clone()));
            // local stack usage from the authoritative table
            let stack_val = crate::symbols::table_get(stack, canonical.as_str());
            match stack_val {
                Some(_) => {
                    self.has_stack_usage_info = true;
                },
                None => {},
            }
            proof {
                if stack_val is Some {
                    assert(any_stack_entry(symbols@, stack@, s + 1)) by {
                        assert(crate::symbols::lookup(
                            stack@,
                            canon_view(symbols@, stack@, s as int),
                        ) is Some);
                    }
                } else {
                    assert(self.has_stack_usage_info == any_stack_entry(
                        symbols@,
                        stack@,
                        s + 1,
                    )) by {
                        if any_stack_entry(symbols@, stack@, s + 1) {
                            let p = choose|p: int|
                                #![trigger symbols@[p]]
                                0 <= p < s + 1 && crate::symbols::lookup(
                                    stack@,
                                    canon_view(symbols@, stack@, p),
                                ) is Some;
                            if p == s as int {
                                assert(false);
                            } else {
                                assert(any_stack_entry(symbols@, stack@, s as int));
                            }
                        }
                        if any_stack_entry(symbols@, stack@, s as int) {
                            let p = choose|p: int|
                                #![trigger symbols@[p]]
                                0 <= p < s && crate::symbols::lookup(
                                    stack@,
                                    canon_view(symbols@, stack@, p),
                                ) is Some;
                            assert(any_stack_entry(symbols@, stack@, s + 1));
                        }
                    }
                }
            }
            // ambiguity count of the dehashed demangled form
            let demangled = demangle(canonical.as_str());
            match dehash(demangled.as_str()) {
                Some(dehashed) => {
                    let ghost snap2 = *self;
                    let mut found = false;
                    let na = self.ambiguous.len();
                    let mut a: usize = 0;
                    while a < na
                        invariant
                            0 <= a <= na,
                            na == snap2.ambiguous@.len(),
                            self.ambiguous@.len() == na,
                            ns == symbols@.len(),
                            s < ns,
                            forall|p: int|
                                0 <= p < self.ambiguous@.len() ==> (#[trigger] self.ambiguous@[p]).1
                                    <= s + 1,
                            !found ==> forall|p: int|
                                0 <= p < self.ambiguous@.len() ==> (#[trigger] self.ambiguous@[p]).1
                                    <= s,
                            found ==> a == na,
                            self.g == snap2.g,
                            self.indices == snap2.indices,
                            self.aliases == snap2.aliases,
                            self.indirects == snap2.indirects,
                            self.dynamics == snap2.dynamics,
                            self.fmts == snap2.fmts,
                            self.default_methods == snap2.default_methods,
                            self.defined == snap2.defined,
                            self.asm_fns == snap2.asm_fns,
                            self.has_untyped_symbols == snap2.has_untyped_symbols,
                            self.has_stack_usage_info == snap2.has_stack_usage_info,
                            self.addr2name == snap2.addr2name,
                        decreases na - a,
                    {
                        if str_eq(self.ambiguous[a].0.as_str(), dehashed) {
                            let c = self.ambiguous[a].1;
                            self.ambiguous[a].1 = c + 1;
                            found = true;
                            a = na;
                        } else {
                            a = a + 1;
                        }
                    }
                    if !found {
                        self.ambiguous.push((String::from_str(dehashed), 1));
                    }
                },
                None => {},
            }
            // the node itself
            let idx = self.g.add_node(Node(canonical.clone(), stack_val, false));
            self.indices.push((canonical.clone(), idx));
            // classify by typed item
            let mut def_idx: Option<usize> = None;
            let mut k: usize = 0;
            while k < nn
                invariant
                    nn == names@.len(),
                    def_idx matches Some(d) ==> d < defines@.len(),
                decreases nn - k,
            {
                match find_define_by_name(defines, names[k].as_str()) {
                    Some(d) => {
                        def_idx = Some(d);
                        k = nn;
                    },
                    None => {
                        k = k + 1;
                    },
                }
            }
            let is_trait_method = (starts_with(demangled.as_str(), "<") && match find_str(
                demangled.as_str(),
                " as ",
            ) {
                Some(_) => true,
                None => false,
            }) || (match dehash(demangled.as_str()) {
                Some(path) => contains_name(&self.default_methods, path),
                None => false,
            });
            match def_idx {
                Some(d) => {
                    let def = &defines[d];
                    if is_formatter_sig(&def.sig) {
                        self.fmts.push(idx);
                    }
                    let is_object_safe = is_trait_method && def.sig.inputs.len() >= 1 && (
                    match &def.sig.inputs[0] {
                        Type::Pointer(ty) => match &**ty {
                            Type::Fn(_) => false,
                            _ => true,
                        },
                        _ => false,
                    });
                    if is_object_safe {
                        let erased = def.sig.erased_receiver();
                        bucket_push_callee(&mut self.dynamics, erased, idx);
                    } else {
                        bucket_push_callee(&mut self.indirects, def.sig.deep_clone(), idx);
                    }
                },
                None => {
                    let mut decl_sig: Option<usize> = None;
                    let mut k2: usize = 0;
                    while k2 < nn
                        invariant
                            nn == names@.len(),
                            decl_sig matches Some(d) ==> d < declares@.len() && declares@[d as int].sig is Some,
                        decreases nn - k2,
                    {
                        match find_declare_by_name(declares, names[k2].as_str()) {
                            Some(d) => {
                                match &declares[d].sig {
                                    Some(_) => {
                                        decl_sig = Some(d);
                                        k2 = nn;
                                    },
                                    None => {
                                        k2 = k2 + 1;
                                    },
                                }
                            },
                            None => {
                                k2 = k2 + 1;
                            },
                        }
                    }
                    match decl_sig {
                        Some(d) => {
                            match &declares[d].sig {
                                Some(sig) => {
                                    bucket_push_callee(&mut self.indirects, sig.deep_clone(), idx);
                                },
                                None => {
                                    proof {
                                        assert(false);
                                    }
                                },
                            }
                        },
                        None => {
                            self.has_untyped_symbols = true;
                        },
                    }
                },
            }
            proof {
                assert(self.indices@[s as int].1 == s);
                assert(self.indices@[s as int].0@ == canon_view(symbols@, stack@, s as int));
                assert forall|p: int|
                    0 <= p < s + 1 implies (#[trigger] self.indices@[p]).1 == p
                        && self.indices@[p].0@ == canon_view(symbols@, stack@, p) by {
                }
                // distinct canonical names keep the index table injective
                assert forall|p1: int, p2: int|
                    0 <= p1 < self.indices@.len() && 0 <= p2 < self.indices@.len() && (
                    #[trigger] self.indices@[p1]).0@ == (#[trigger] self.indices@[p2]).0@ implies p1
                    == p2 by {
                    if p1 != p2 {
                        assert(self.indices@[p1].0@ == canon_view(symbols@, stack@, p1));
                        assert(self.indices@[p2].0@ == canon_view(symbols@, stack@, p2));
                        crate::symbols::lemma_canonical_in_bounds(symbols@[p1].names@, stack@);
                        crate::symbols::lemma_canonical_in_bounds(symbols@[p2].names@, stack@);
                        assert(symbols@[p1].names@[crate::symbols::spec_canonical_index(
                            symbols@[p1].names@,
                            stack@,
                        )->Some_0]@ != symbols@[p2].names@[crate::symbols::spec_canonical_index(
                            symbols@[p2].names@,
                            stack@,
                        )->Some_0]@);
                    }
                }
            }
            s = s + 1;
        }
        Ok(())
    }

    /// Scans every define's demangled name for the
    /// `<Type as Trait>::method` shape and records the trait-and-method keys
    /// of the default methods: every key found is recorded, and nothing else.
    pub fn discover_default_methods(&mut self, defines: &Vec<crate::ir::Define>)
        requires
            old(self).default_methods@.len() == 0,
        ensures
            forall|p: int|
                0 <= p < final(self).default_methods@.len() ==> #[trigger] key_of_some_define(
                    final(self).default_methods@[p],
                    defines@,
                ),
            final(self).g == old(self).g,
            final(self).indices == old(self).indices,
            final(self).aliases == old(self).aliases,
            final(self).indirects == old(self).indirects,
            final(self).dynamics == old(self).dynamics,
            final(self).fmts == old(self).fmts,
            final(self).ambiguous == old(self).ambiguous,
            final(self).defined == old(self).defined,
            final(self).asm_fns == old(self).asm_fns,
            final(self).addr2name == old(self).addr2name,
            final(self).has_untyped_symbols == old(self).has_untyped_symbols,
            final(self).has_stack_usage_info == old(self).has_stack_usage_info,
            old(self).wf() ==> final(self).wf(),
            forall|d: int|
                0 <= d < defines@.len() ==> match spec_trait_method_key(
                    demangled_of((#[trigger] defines@[d]).name@),
                ) {
                    Some(k) => contains_string(final(self).default_methods@, k),
                    None => true,
                },
    {
        let nd = defines.len();
        let mut d: usize = 0;
        proof {
            assert(self.default_methods@.len() == 0);
        }
        while d < nd
            invariant
                nd == defines@.len(),
                0 <= d <= nd,
                self.g == old(self).g,
                self.indices == old(self).indices,
                self.aliases == old(self).aliases,
                self.indirects == old(self).indirects,
                self.dynamics == old(self).dynamics,
                self.fmts == old(self).fmts,
                self.ambiguous == old(self).ambiguous,
                self.defined == old(self).defined,
                self.asm_fns == old(self).asm_fns,
                self.addr2name == old(self).addr2name,
                self.has_untyped_symbols == old(self).has_untyped_symbols,
                self.has_stack_usage_info == old(self).has_stack_usage_info,
                forall|p: int|
                    0 <= p < self.default_methods@.len() ==> #[trigger] key_of_some_define(
                        self.default_methods@[p],
                        defines@,
                    ),
                forall|q: int|
                    0 <= q < d ==> match spec_trait_method_key(
                        demangled_of((#[trigger] defines@[q]).name@),
                    ) {
                        Some(k) => contains_string(self.default_methods@, k),
                        None => true,
                    },
            decreases nd - d,
        {
            let ghost dm0 = self.default_methods@;
            let demangled = demangle(defines[d].name.as_str());
            match trait_method_key(demangled.as_str()) {
                Some(key) => {
                    self.default_methods.push(key);
                    proof {
                        assert(key_of_some_define(self.default_methods@.last(), defines@)) by {
                            assert(Some(self.default_methods@.last()@) == spec_trait_method_key(
                                demangled_of(defines@[d as int].name@),
                            ));
                        }
                        assert forall|p: int|
                            0 <= p < self.default_methods@.len() implies #[trigger] key_of_some_define(
                            self.default_methods@[p],
                            defines@,
                        ) by {
                            if p < dm0.len() {
                                assert(self.default_methods@[p] == dm0[p]);
                            } else {
                                assert(self.default_methods@[p] == self.default_methods@.last());
                            }
                        }
                        assert forall|q: int|
                            0 <= q < d + 1 implies match spec_trait_method_key(
                            demangled_of((#[trigger] defines@[q]).name@),
                        ) {
                            Some(k) => contains_string(self.default_methods@, k),
                            None => true,
                        } by {
                            match spec_trait_method_key(demangled_of(defines@[q].name@)) {
                                Some(k) => {
                                    if q < d {
                                        let w = choose|w: int|
                                            0 <= w < dm0.len() && dm0[w]@ == k;
                                        assert(self.default_methods@[w]@ == k);
                                    } else {
                                        assert(self.default_methods@.last()@ == k);
                                    }
                                },
                                None => {},
                            }
                        }
                    }
                },
                None => {},
            }
            d = d + 1;
        }
    }
}

} // verus!
