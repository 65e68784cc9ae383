//! Character-level utilities on symbol names: searching, slicing, hash
//! stripping, version-suffix normalization, and decimal rendering.
use vstd::prelude::*;
use vstd::seq_lib::*;

verus! {

/// Relies on `core::iter::Iterator::collect` for `String`: collecting chars
/// yields the string made of exactly those chars, in order.
#[verifier::external_body]
pub(crate) fn string_from_chars(v: &Vec<char>) -> (r: String)
    ensures
        r@ == v@,
{
    v.iter().collect()
}

/// Decides whether two string slices hold the same characters.
pub fn str_eq(a: &str, b: &str) -> (r: bool)
    ensures
        r == (a@ == b@),
{
    let la = a.unicode_len();
    let lb = b.unicode_len();
    if la != lb {
        assert(a@ != b@) by {
            assert(a@.len() != b@.len());
        }
        return false;
    }
    let mut i: usize = 0;
    while i < la
        invariant
            0 <= i <= la,
            la == a@.len() == b@.len(),
            forall|j: int| 0 <= j < i ==> a@[j] == b@[j],
        decreases la - i,
    {
        if a.get_char(i) != b.get_char(i) {
            return false;
        }
        i = i + 1;
    }
    proof {
        assert(a@ =~= b@);
    }
    true
}

/// Whether the characters of `p` appear in `s` starting at position `i`.
pub open spec fn occurs_at(s: Seq<char>, p: Seq<char>, i: int) -> bool {
    0 <= i && i + p.len() <= s.len() && s.subrange(i, i + p.len()) =~= p
}

/// The position of the leftmost occurrence of `p` in `s` at or after `from`.
pub open spec fn find_from(s: Seq<char>, p: Seq<char>, from: int) -> Option<int>
    decreases s.len() - from,
{
    if from < 0 || from + p.len() > s.len() {
        None
    } else if occurs_at(s, p, from) {
        Some(from)
    } else {
        find_from(s, p, from + 1)
    }
}

/// What `find_from` returns is an occurrence, and the leftmost one.
pub proof fn lemma_find_from(s: Seq<char>, p: Seq<char>, from: int)
    requires
        from >= 0,
    ensures
        match find_from(s, p, from) {
            Some(i) => occurs_at(s, p, i) && from <= i && forall|k: int|
                from <= k < i ==> !occurs_at(s, p, k),
            None => forall|k: int| from <= k ==> !occurs_at(s, p, k),
        },
    decreases s.len() - from,
{
    if from + p.len() > s.len() {
        assert(forall|k: int| from <= k ==> !occurs_at(s, p, k));
    } else if occurs_at(s, p, from) {
    } else {
        lemma_find_from(s, p, from + 1);
    }
}

/// The position of the rightmost occurrence of `p` in `s` at or before `from`.
pub open spec fn rfind_from(s: Seq<char>, p: Seq<char>, from: int) -> Option<int>
    decreases from + 1,
{
    if from < 0 {
        None
    } else if occurs_at(s, p, from) {
        Some(from)
    } else {
        rfind_from(s, p, from - 1)
    }
}

/// What `rfind_from` returns is an occurrence, and the rightmost one.
pub proof fn lemma_rfind_from(s: Seq<char>, p: Seq<char>, from: int)
    ensures
        match rfind_from(s, p, from) {
            Some(i) => occurs_at(s, p, i) && i <= from && forall|k: int|
                i < k <= from ==> !occurs_at(s, p, k),
            None => forall|k: int| k <= from ==> !occurs_at(s, p, k),
        },
    decreases from + 1,
{
    if from < 0 {
    } else if occurs_at(s, p, from) {
    } else {
        lemma_rfind_from(s, p, from - 1);
    }
}

/// Finds the leftmost occurrence of `pat` in `s`.
pub fn find_str(s: &str, pat: &str) -> (r: Option<usize>)
    ensures
        r matches Some(i) ==> find_from(s@, pat@, 0) == Some(i as int),
        r is None ==> find_from(s@, pat@, 0) is None,
{
    let n = s.unicode_len();
    let m = pat.unicode_len();
    if m > n {
        proof {
            lemma_find_from(s@, pat@, 0);
            match find_from(s@, pat@, 0) {
                Some(i) => {
                    assert(occurs_at(s@, pat@, i));
                },
                None => {},
            }
        }
        return None;
    }
    let mut i: usize = 0;
    while i <= n - m
        invariant
            0 <= i <= n - m + 1,
            m <= n,
            n == s@.len(),
            m == pat@.len(),
            forall|k: int| 0 <= k < i ==> !occurs_at(s@, pat@, k),
            find_from(s@, pat@, 0) == find_from(s@, pat@, i as int),
        decreases n + 1 - i,
    {
        let mut j: usize = 0;
        let mut hit = true;
        while j < m
            invariant
                0 <= j <= m,
                m <= n,
                i + m <= n,
                n == s@.len(),
                m == pat@.len(),
                hit <==> (forall|k: int| 0 <= k < j ==> s@[i + k] == pat@[k]),
            decreases m - j,
        {
            if s.get_char(i + j) != pat.get_char(j) {
                hit = false;
                proof {
                    assert(!(forall|k: int| 0 <= k < j + 1 ==> s@[i + k] == pat@[k])) by {
                        assert(s@[i + j] != pat@[j as int]);
                    }
                }
                j = m;
            } else {
                j = j + 1;
            }
        }
        if hit {
            proof {
                assert(s@.subrange(i as int, i + m) =~= pat@);
                assert(occurs_at(s@, pat@, i as int));
            }
            return Some(i);
        }
        proof {
            assert(!occurs_at(s@, pat@, i as int)) by {
                if occurs_at(s@, pat@, i as int) {
                    assert(forall|k: int|
                        0 <= k < m ==> s@[i + k] == #[trigger] s@.subrange(i as int, i + m)[k]);
                }
            }
        }
        i = i + 1;
    }
    proof {
        lemma_find_from(s@, pat@, 0);
        match find_from(s@, pat@, 0) {
            Some(k) => {
                assert(occurs_at(s@, pat@, k));
                assert(false);
            },
            None => {},
        }
    }
    None
}

/// Whether `s` starts with the characters of `p`.
pub open spec fn starts_with_seq(s: Seq<char>, p: Seq<char>) -> bool {
    p.len() <= s.len() && s.subrange(0, p.len() as int) =~= p
}

/// Decides whether `s` starts with `pat`.
pub fn starts_with(s: &str, pat: &str) -> (r: bool)
    ensures
        r == starts_with_seq(s@, pat@),
{
    let n = s.unicode_len();
    let m = pat.unicode_len();
    if m > n {
        return false;
    }
    let mut j: usize = 0;
    while j < m
        invariant
            0 <= j <= m,
            m <= n,
            n == s@.len(),
            m == pat@.len(),
            forall|k: int| 0 <= k < j ==> s@[k] == pat@[k],
        decreases m - j,
    {
        if s.get_char(j) != pat.get_char(j) {
            proof {
                assert(s@.subrange(0, m as int)[j as int] != pat@[j as int]);
            }
            return false;
        }
        j = j + 1;
    }
    proof {
        assert(s@.subrange(0, m as int) =~= pat@);
    }
    true
}

/// The number of characters in the hash suffix appended to mangled names:
/// `::h` followed by sixteen hex digits.
pub open spec fn hash_len() -> int {
    19
}

/// Whether `s` ends in a hash suffix: more than nineteen characters total and
/// the last nineteen start with `::h`.
pub open spec fn has_hash_suffix(s: Seq<char>) -> bool {
    s.len() > hash_len() && s[s.len() - 19] == ':' && s[s.len() - 18] == ':' && s[s.len() - 17]
        == 'h'
}

/// `s` with its hash suffix removed, or `s` itself when it has none.
pub open spec fn strip_hash(s: Seq<char>) -> Seq<char> {
    if has_hash_suffix(s) {
        s.take(s.len() - 19)
    } else {
        s
    }
}

/// Removes a trailing hash like `::hfc5adc5d79855638`, if present.
pub fn dehash(demangled: &str) -> (r: Option<&str>)
    ensures
        r matches Some(t) ==> has_hash_suffix(demangled@) && t@ == strip_hash(demangled@),
        r is None ==> !has_hash_suffix(demangled@),
{
    let len = demangled.unicode_len();
    if len > 19 {
        if demangled.get_char(len - 19) == ':' && demangled.get_char(len - 18) == ':'
            && demangled.get_char(len - 17) == 'h' {
            let t = demangled.substring_char(0, len - 19);
            proof {
                assert(t@ =~= strip_hash(demangled@));
            }
            Some(t)
        } else {
            None
        }
    } else {
        None
    }
}

/// The character for one decimal digit.
pub open spec fn digit_char(d: int) -> char {
    if d == 0 {
        '0'
    } else if d == 1 {
        '1'
    } else if d == 2 {
        '2'
    } else if d == 3 {
        '3'
    } else if d == 4 {
        '4'
    } else if d == 5 {
        '5'
    } else if d == 6 {
        '6'
    } else if d == 7 {
        '7'
    } else if d == 8 {
        '8'
    } else {
        '9'
    }
}

/// The decimal rendering of a non-negative integer, most significant digit
/// first, without leading zeroes.
pub open spec fn dec_seq(n: int) -> Seq<char>
    recommends
        n >= 0,
    decreases n,
{
    if n < 10 {
        seq![digit_char(n)]
    } else {
        dec_seq(n / 10).push(digit_char(n % 10))
    }
}

fn digit_of(d: u64) -> (c: char)
    requires
        d < 10,
    ensures
        c == digit_char(d as int),
{
    if d == 0 {
        '0'
    } else if d == 1 {
        '1'
    } else if d == 2 {
        '2'
    } else if d == 3 {
        '3'
    } else if d == 4 {
        '4'
    } else if d == 5 {
        '5'
    } else if d == 6 {
        '6'
    } else if d == 7 {
        '7'
    } else if d == 8 {
        '8'
    } else {
        '9'
    }
}

/// Renders an unsigned number in decimal.
pub fn u64_dec(n: u64) -> (r: String)
    ensures
        r@ == dec_seq(n as int),
{
    let mut digits: Vec<char> = Vec::new();
    let mut m = n;
    while m >= 10
        invariant
            dec_seq(n as int) =~= dec_seq(m as int) + digits@.reverse(),
        decreases m,
    {
        let d = m % 10;
        let ghost before = digits@;
        digits.push(digit_of(d));
        proof {
            assert(digits@.reverse() =~= seq![digit_char(d as int)] + before.reverse());
            assert(dec_seq(m as int) =~= dec_seq(m as int / 10).push(digit_char(m as int % 10)));
            assert(dec_seq(n as int) =~= dec_seq((m / 10) as int) + digits@.reverse());
        }
        m = m / 10;
    }
    let mut out: Vec<char> = Vec::new();
    out.push(digit_of(m));
    let total = digits.len();
    let mut k: usize = 0;
    while k < total
        invariant
            0 <= k <= total,
            total == digits@.len(),
            dec_seq(n as int) =~= seq![digit_char(m as int)] + digits@.reverse(),
            out@ =~= (seq![digit_char(m as int)] + digits@.reverse()).take(k + 1),
        decreases total - k,
    {
        out.push(digits[total - 1 - k]);
        proof {
            assert(digits@.reverse()[k as int] == digits@[total - 1 - k]);
            assert(out@ =~= (seq![digit_char(m as int)] + digits@.reverse()).take(k + 2));
        }
        k = k + 1;
    }
    proof {
        assert(out@ =~= dec_seq(n as int));
    }
    string_from_chars(&out)
}

/// Stripping a hash suffix twice changes nothing more than stripping it once.
/// The inputs left out are those whose stripped form still ends in something
/// shaped like a hash suffix, where a second strip removes more.
pub proof fn lemma_dehash_idempotent(s: Seq<char>)
    requires
        !has_hash_suffix(strip_hash(s)),
    ensures
        strip_hash(strip_hash(s)) == strip_hash(s),
{
}

} // verus!
