//! Typed items recovered from the program's intermediate representation:
//! type expressions, function signatures, statements, and top-level items.
use vstd::prelude::*;

verus! {

/// A type expression. Equality is structural; `Erased` marks the receiver of
/// an object-safe method whose concrete type has been erased for dispatch.
pub enum Type {
    Integer(u32),
    Pointer(Box<Type>),
    Fn(Box<FnSig>),
    Alias(String),
    Erased,
}

/// A function signature: ordered parameter types and an optional return type.
pub struct FnSig {
    pub inputs: Vec<Type>,
    pub output: Option<Box<Type>>,
}

/// Structural equality of type expressions; alias names compare by contents.
pub open spec fn type_equal(a: Type, b: Type) -> bool
    decreases a,
{
    match a {
        Type::Integer(x) => b matches Type::Integer(y) && x == y,
        Type::Pointer(x) => b matches Type::Pointer(y) && type_equal(*x, *y),
        Type::Fn(x) => b matches Type::Fn(y) && sig_equal(*x, *y),
        Type::Alias(x) => b matches Type::Alias(y) && x@ == y@,
        Type::Erased => b is Erased,
    }
}

/// Structural equality of signatures.
pub open spec fn sig_equal(a: FnSig, b: FnSig) -> bool
    decreases a,
{
    &&& a.inputs.len() == b.inputs.len()
    &&& forall|i: int|
        0 <= i < a.inputs.len() ==> type_equal(#[trigger] a.inputs[i], b.inputs[i])
    &&& match a.output {
        Some(x) => b.output matches Some(y) && type_equal(*x, *y),
        None => b.output is None,
    }
}

impl Type {
    /// Whether this is the erased-receiver marker.
    pub fn has_been_erased(&self) -> (r: bool)
        ensures
            r == (*self is Erased),
    {
        match self {
            Type::Erased => true,
            _ => false,
        }
    }

    /// The erased-receiver marker.
    pub fn erased() -> (r: Type)
        ensures
            r is Erased,
    {
        Type::Erased
    }

    /// Decides structural equality of two type expressions.
    pub fn equals(&self, other: &Type) -> (r: bool)
        ensures
            r == type_equal(*self, *other),
        decreases *self,
    {
        match self {
            Type::Integer(x) => match other {
                Type::Integer(y) => *x == *y,
                _ => false,
            },
            Type::Pointer(x) => match other {
                Type::Pointer(y) => x.equals(y),
                _ => false,
            },
            Type::Fn(x) => match other {
                Type::Fn(y) => x.equals(y),
                _ => false,
            },
            Type::Alias(x) => match other {
                Type::Alias(y) => *x == *y,
                _ => false,
            },
            Type::Erased => match other {
                Type::Erased => true,
                _ => false,
            },
        }
    }
}

impl FnSig {
    /// Decides structural equality of two signatures.
    pub fn equals(&self, other: &FnSig) -> (r: bool)
        ensures
            r == sig_equal(*self, *other),
        decreases *self,
    {
        if self.inputs.len() != other.inputs.len() {
            return false;
        }
        let n = self.inputs.len();
        let mut i: usize = 0;
        while i < n
            invariant
                0 <= i <= n,
                n == self.inputs.len() == other.inputs.len(),
                forall|j: int| 0 <= j < i ==> type_equal(#[trigger] self.inputs[j], other.inputs[j]),
            decreases n - i,
        {
            if !self.inputs[i].equals(&other.inputs[i]) {
                return false;
            }
            i = i + 1;
        }
        match &self.output {
            Some(x) => match &other.output {
                Some(y) => x.equals(y),
                None => false,
            },
            None => match &other.output {
                Some(_) => false,
                None => true,
            },
        }
    }
}

/// One statement of a function body, as far as call-graph construction cares.
pub enum Stmt {
    /// A call to a named function.
    DirectCall(String),
    /// A call through a function pointer with the given signature.
    IndirectCall(FnSig),
    /// A call through a value cast from a symbol reference; `None` when the
    /// symbol reference carries no name.
    BitcastCall(Option<String>),
    /// Inline assembly, with its text.
    Asm(String),
    Label,
    Comment,
    Other,
}

/// A defined function: name, signature, and body statements.
pub struct Define {
    pub name: String,
    pub sig: FnSig,
    pub stmts: Vec<Stmt>,
}

/// A declared (but not defined) function: name and optional signature.
pub struct Declare {
    pub name: String,
    pub sig: Option<FnSig>,
}

/// A top-level item of an intermediate-representation module.
pub enum Item {
    Define(Define),
    Declare(Declare),
    Other,
}

} // verus!
