//! The one call out to the external name-mangler.
use vstd::prelude::*;

verus! {

/// The human-readable form of a mangled symbol name. It depends on the
/// characters of the name alone.
pub uninterp spec fn demangled_of(s: Seq<char>) -> Seq<char>;

/// Relies on `rustc_demangle::demangle`, rendered to a string: the demangled
/// form of a symbol name, a function of the name alone.
#[verifier::external_body]
pub(crate) fn demangle(name: &str) -> (r: String)
    ensures
        r@ == demangled_of(name@),
{
    rustc_demangle::demangle(name).to_string()
}

} // verus!
