//! Symbols of the linked executable: canonical names, aliases, the stack
//! table, version-suffix normalization, and symbol-table tags.
use vstd::prelude::*;
use crate::strings::{occurs_at, rfind_from, lemma_rfind_from, starts_with_seq, starts_with, str_eq};

verus! {

/// The compilation target. Only the Thumb targets allow machine-code
/// analysis of the executable.
#[derive(Clone, Copy, PartialEq, Eq, Structural, Debug)]
pub enum Target {
    Other,
    Thumbv6m,
    Thumbv7m,
}

impl Target {
    /// Whether the target is one of the supported Thumb instruction sets.
    pub fn is_thumb(&self) -> (r: bool)
        ensures
            r == (*self is Thumbv6m || *self is Thumbv7m),
    {
        match *self {
            Target::Thumbv6m | Target::Thumbv7m => true,
            Target::Other => false,
        }
    }
}

/// A symbol-table tag: the address starts data or Thumb code.
#[derive(Clone, Copy, PartialEq, Eq, Structural, Debug)]
pub enum Tag {
    Data,
    Thumb,
}

/// One defined symbol of the executable: load address, size in bytes, and
/// every name bound to that address.
pub struct DefinedSymbol {
    pub address: u64,
    pub size: u64,
    pub names: Vec<String>,
}

/// The value bound to `name` in an association list where later entries
/// override earlier ones.
pub open spec fn lookup(t: Seq<(String, u64)>, name: Seq<char>) -> Option<u64>
    decreases t.len(),
{
    if t.len() == 0 {
        None
    } else if t.last().0@ == name {
        Some(t.last().1)
    } else {
        lookup(t.drop_last(), name)
    }
}

/// Looks `name` up in the stack table; later entries override earlier ones.
pub fn table_get(t: &Vec<(String, u64)>, name: &str) -> (r: Option<u64>)
    ensures
        r == lookup(t@, name@),
{
    let mut i: usize = t.len();
    proof {
        assert(t@.take(t@.len() as int) =~= t@);
    }
    while i > 0
        invariant
            0 <= i <= t@.len(),
            lookup(t@, name@) == lookup(t@.take(i as int), name@),
        decreases i,
    {
        i = i - 1;
        proof {
            assert(t@.take(i + 1).last() == t@[i as int]);
            assert(t@.take(i + 1).drop_last() =~= t@.take(i as int));
        }
        if str_eq(t[i].0.as_str(), name) {
            return Some(t[i].1);
        }
    }
    proof {
        assert(t@.take(0) =~= Seq::<(String, u64)>::empty());
    }
    None
}

/// Whether a name is a mapping-symbol marker rather than a function name.
pub open spec fn is_marker(n: Seq<char>) -> bool {
    n =~= "$a"@ || starts_with_seq(n, "$a."@)
}

/// The first index at or after `from` whose name has a stack-table entry.
pub open spec fn first_in_table(names: Seq<String>, t: Seq<(String, u64)>, from: int) -> Option<
    int,
>
    decreases names.len() - from,
{
    if from < 0 || from >= names.len() {
        None
    } else if lookup(t, names[from]@) is Some {
        Some(from)
    } else {
        first_in_table(names, t, from + 1)
    }
}

/// The first index at or after `from` whose name is not a marker.
pub open spec fn first_non_marker(names: Seq<String>, from: int) -> Option<int>
    decreases names.len() - from,
{
    if from < 0 || from >= names.len() {
        None
    } else if !is_marker(names[from]@) {
        Some(from)
    } else {
        first_non_marker(names, from + 1)
    }
}

/// The index of the canonical name among the names sharing one address: a
/// lone name stands for itself; otherwise the first name present in the
/// stack table is preferred, else the first non-marker name.
pub open spec fn spec_canonical_index(names: Seq<String>, t: Seq<(String, u64)>) -> Option<int> {
    if names.len() == 1 {
        Some(0)
    } else if first_in_table(names, t, 0) is Some {
        first_in_table(names, t, 0)
    } else {
        first_non_marker(names, 0)
    }
}

fn name_in_table(t: &Vec<(String, u64)>, name: &str) -> (r: bool)
    ensures
        r == (lookup(t@, name@) is Some),
{
    match table_get(t, name) {
        Some(_) => true,
        None => false,
    }
}

fn is_marker_exec(n: &str) -> (r: bool)
    ensures
        r == is_marker(n@),
{
    if str_eq(n, "$a") {
        proof {
            assert(n@ =~= "$a"@);
        }
        true
    } else {
        starts_with(n, "$a.")
    }
}

/// Chooses the canonical name among the names bound to one address.
pub fn choose_canonical(names: &Vec<String>, t: &Vec<(String, u64)>) -> (r: Option<usize>)
    requires
        names@.len() >= 1,
    ensures
        match r {
            Some(i) => spec_canonical_index(names@, t@) == Some(i as int) && i < names@.len(),
            None => spec_canonical_index(names@, t@) is None,
        },
{
    if names.len() == 1 {
        return Some(0);
    }
    let mut i: usize = 0;
    while i < names.len()
        invariant
            0 <= i <= names@.len(),
            first_in_table(names@, t@, 0) == first_in_table(names@, t@, i as int),
        decreases names@.len() - i,
    {
        if name_in_table(t, names[i].as_str()) {
            return Some(i);
        }
        i = i + 1;
    }
    let mut j: usize = 0;
    while j < names.len()
        invariant
            0 <= j <= names@.len(),
            first_in_table(names@, t@, 0) is None,
            first_non_marker(names@, 0) == first_non_marker(names@, j as int),
        decreases names@.len() - j,
    {
        if !is_marker_exec(names[j].as_str()) {
            return Some(j);
        }
        j = j + 1;
    }
    None
}

/// A successful search stays within the name list.
pub proof fn lemma_first_in_table_bounds(names: Seq<String>, t: Seq<(String, u64)>, from: int)
    requires
        first_in_table(names, t, from) is Some,
    ensures
        from <= first_in_table(names, t, from)->Some_0 < names.len(),
    decreases names.len() - from,
{
    if !(from < 0 || from >= names.len()) && !(lookup(t, names[from]@) is Some) {
        lemma_first_in_table_bounds(names, t, from + 1);
    }
}

/// A successful search stays within the name list.
pub proof fn lemma_first_non_marker_bounds(names: Seq<String>, from: int)
    requires
        first_non_marker(names, from) is Some,
    ensures
        from <= first_non_marker(names, from)->Some_0 < names.len(),
    decreases names.len() - from,
{
    if !(from < 0 || from >= names.len()) && is_marker(names[from]@) {
        lemma_first_non_marker_bounds(names, from + 1);
    }
}

/// A chosen canonical index lies within the name list.
pub proof fn lemma_canonical_in_bounds(names: Seq<String>, t: Seq<(String, u64)>)
    requires
        spec_canonical_index(names, t) is Some,
        names.len() >= 1,
    ensures
        0 <= spec_canonical_index(names, t)->Some_0 < names.len(),
{
    if names.len() == 1 {
    } else if first_in_table(names, t, 0) is Some {
        lemma_first_in_table_bounds(names, t, 0);
    } else {
        lemma_first_non_marker_bounds(names, 0);
    }
}

/// The two-character version-suffix separator.
pub open spec fn sep() -> Seq<char> {
    seq!['@', '@']
}

/// An undefined name normalized: the segment left of the rightmost version
/// separator, itself cut at the separator before it, when one occurs; the
/// name unchanged otherwise.
pub open spec fn normalize_spec(s: Seq<char>) -> Seq<char> {
    match rfind_from(s, sep(), s.len() - 2) {
        None => s,
        Some(i) => match rfind_from(s, sep(), i - 2) {
            None => s.take(i),
            Some(j) => s.subrange(j + 2, i),
        },
    }
}

fn rfind_sep(s: &str, from_end: usize) -> (r: Option<usize>)
    requires
        from_end + 2 <= s@.len(),
        from_end + 2 <= usize::MAX,
    ensures
        match r {
            Some(i) => rfind_from(s@, sep(), from_end as int) == Some(i as int),
            None => rfind_from(s@, sep(), from_end as int) is None,
        },
{
    let mut i: usize = from_end;
    loop
        invariant
            0 <= i <= from_end,
            from_end + 2 <= s@.len(),
            from_end + 2 <= usize::MAX,
            rfind_from(s@, sep(), from_end as int) == rfind_from(s@, sep(), i as int),
        decreases i,
    {
        if s.get_char(i) == '@' && s.get_char(i + 1) == '@' {
            proof {
                assert(s@.subrange(i as int, i + 2) =~= sep());
            }
            return Some(i);
        }
        proof {
            assert(!occurs_at(s@, sep(), i as int)) by {
                if occurs_at(s@, sep(), i as int) {
                    assert(s@.subrange(i as int, i + 2)[0] == '@');
                    assert(s@.subrange(i as int, i + 2)[1] == '@');
                }
            }
        }
        if i == 0 {
            proof {
                assert(rfind_from(s@, sep(), -1) is None);
            }
            return None;
        }
        i = i - 1;
    }
}

/// Strips the version suffix `@@version` from an undefined symbol name, as
/// `normalize_spec` describes.
pub fn normalize_undefined(sym: &str) -> (r: &str)
    ensures
        r@ == normalize_spec(sym@),
{
    let n = sym.unicode_len();
    if n < 2 {
        proof {
            assert(rfind_from(sym@, sep(), n - 2) is None) by {
                lemma_rfind_from(sym@, sep(), n - 2);
                match rfind_from(sym@, sep(), n - 2) {
                    Some(i) => {
                        assert(occurs_at(sym@, sep(), i));
                        assert(false);
                    },
                    None => {},
                }
            }
        }
        return sym;
    }
    match rfind_sep(sym, n - 2) {
        None => sym,
        Some(i) => {
            proof {
                lemma_rfind_from(sym@, sep(), n - 2);
                assert(occurs_at(sym@, sep(), i as int));
            }
            if i < 2 {
                proof {
                    assert(rfind_from(sym@, sep(), i - 2) is None) by {
                        lemma_rfind_from(sym@, sep(), i - 2);
                        match rfind_from(sym@, sep(), i - 2) {
                            Some(j) => {
                                assert(occurs_at(sym@, sep(), j));
                                assert(false);
                            },
                            None => {},
                        }
                    }
                }
                sym.substring_char(0, i)
            } else {
                match rfind_sep(sym, i - 2) {
                    None => sym.substring_char(0, i),
                    Some(j) => {
                        proof {
                            lemma_rfind_from(sym@, sep(), i - 2);
                            assert(occurs_at(sym@, sep(), j as int));
                        }
                        sym.substring_char(j + 2, i)
                    },
                }
            }
        },
    }
}

/// What normalization returns holds no version separator.
proof fn lemma_normalized_no_sep(s: Seq<char>)
    ensures
        forall|p: int| !occurs_at(normalize_spec(s), sep(), p),
{
    lemma_rfind_from(s, sep(), s.len() - 2);
    match rfind_from(s, sep(), s.len() - 2) {
        None => {
            assert forall|p: int| !occurs_at(normalize_spec(s), sep(), p) by {
                if occurs_at(s, sep(), p) {
                    assert(p <= s.len() - 2);
                }
            }
        },
        Some(i) => {
            lemma_rfind_from(s, sep(), i - 2);
            match rfind_from(s, sep(), i - 2) {
                None => {
                    let t = s.take(i);
                    assert forall|p: int| !occurs_at(t, sep(), p) by {
                        if occurs_at(t, sep(), p) {
                            assert(s.subrange(p, p + 2) =~= t.subrange(p, p + 2));
                            assert(occurs_at(s, sep(), p));
                            assert(p <= i - 2);
                        }
                    }
                },
                Some(j) => {
                    let t = s.subrange(j + 2, i);
                    assert forall|p: int| !occurs_at(t, sep(), p) by {
                        if occurs_at(t, sep(), p) {
                            assert(s.subrange(j + 2 + p, j + 2 + p + 2) =~= t.subrange(p, p + 2));
                            assert(occurs_at(s, sep(), j + 2 + p));
                            assert(j + 2 + p + 2 <= i);
                            assert(j < j + 2 + p <= i - 2);
                        }
                    }
                },
            }
        },
    }
}

/// Normalizing an undefined name twice gives the same string as normalizing
/// it once.
pub proof fn lemma_normalize_idempotent(s: Seq<char>)
    ensures
        normalize_spec(normalize_spec(s)) == normalize_spec(s),
{
    let t = normalize_spec(s);
    lemma_normalized_no_sep(s);
    lemma_rfind_from(t, sep(), t.len() - 2);
    match rfind_from(t, sep(), t.len() - 2) {
        Some(i) => {
            assert(occurs_at(t, sep(), i));
            assert(false);
        },
        None => {},
    }
}

/// The size taken for a symbol whose reported size is zero: when a Thumb tag
/// sits at its address and the following tag is Thumb too, the distance
/// between the two tag addresses; otherwise the reported size.
pub open spec fn spec_fallback_size(tags: Seq<(u32, Tag)>, address: u32, size: u32) -> int {
    if size != 0 {
        size as int
    } else {
        match first_tag_at(tags, address, 0) {
            None => size as int,
            Some(k) => {
                if tags[k].1 is Thumb && k + 1 < tags.len() && tags[k + 1].1 is Thumb {
                    tags[k + 1].0 - tags[k].0
                } else {
                    size as int
                }
            },
        }
    }
}

/// The first tag index at or after `from` whose address is `address`.
pub open spec fn first_tag_at(tags: Seq<(u32, Tag)>, address: u32, from: int) -> Option<int>
    decreases tags.len() - from,
{
    if from < 0 || from >= tags.len() {
        None
    } else if tags[from].0 == address {
        Some(from)
    } else {
        first_tag_at(tags, address, from + 1)
    }
}

/// Whether the tag table is sorted by address.
pub open spec fn tags_sorted(tags: Seq<(u32, Tag)>) -> bool {
    forall|a: int| #![trigger tags[a]] 0 <= a && a + 1 < tags.len() ==> tags[a].0 <= tags[a + 1].0
}

/// Resolves the size of a defined symbol, trying the tag table when the
/// symbol table reports zero.
pub fn fallback_size(tags: &Vec<(u32, Tag)>, address: u32, size: u32) -> (r: u64)
    requires
        tags_sorted(tags@),
    ensures
        r == spec_fallback_size(tags@, address, size),
{
    if size != 0 {
        return size as u64;
    }
    let mut k: usize = 0;
    while k < tags.len()
        invariant
            size == 0,
            0 <= k <= tags@.len(),
            tags_sorted(tags@),
            first_tag_at(tags@, address, 0) == first_tag_at(tags@, address, k as int),
        decreases tags@.len() - k,
    {
        if tags[k].0 == address {
            proof {
                assert(first_tag_at(tags@, address, k as int) == Some(k as int));
            }
            if k + 1 < tags.len() {
                let here = tags[k];
                let next = tags[k + 1];
                let here_thumb = match here.1 {
                    Tag::Thumb => true,
                    Tag::Data => false,
                };
                let next_thumb = match next.1 {
                    Tag::Thumb => true,
                    Tag::Data => false,
                };
                if here_thumb && next_thumb {
                    proof {
                        assert(here == tags@[k as int]);
                        assert(next == tags@[k as int + 1]);
                        assert(tags@[k as int].0 <= tags@[k as int + 1].0);
                    }
                    return (next.0 - here.0) as u64;
                }
            }
            return size as u64;
        }
        k = k + 1;
    }
    size as u64
}

/// Clears the least-significant bit of every defined address, as Thumb
/// targets demand.
pub fn clear_thumb_bits(symbols: &mut Vec<DefinedSymbol>)
    ensures
        final(symbols)@.len() == old(symbols)@.len(),
        forall|i: int|
            0 <= i < final(symbols)@.len() ==> {
                &&& #[trigger] final(symbols)@[i].address == old(symbols)@[i].address & !1u64
                &&& final(symbols)@[i].size == old(symbols)@[i].size
                &&& final(symbols)@[i].names == old(symbols)@[i].names
            },
{
    let n = symbols.len();
    let mut i: usize = 0;
    while i < n
        invariant
            0 <= i <= n,
            n == symbols@.len() == old(symbols)@.len(),
            forall|j: int|
                i <= j < n ==> #[trigger] symbols@[j] == old(symbols)@[j],
            forall|j: int|
                0 <= j < i ==> {
                    &&& #[trigger] symbols@[j].address == old(symbols)@[j].address & !1u64
                    &&& symbols@[j].size == old(symbols)@[j].size
                    &&& symbols@[j].names == old(symbols)@[j].names
                },
        decreases n - i,
    {
        let a = symbols[i].address;
        symbols[i].address = a & !1u64;
        i = i + 1;
    }
}

} // verus!
