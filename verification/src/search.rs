//! Verified text scanning: first/last occurrence of a character and first
//! occurrence of a substring, with the spec predicates the contracts of the
//! protocol layer are stated over.

use vstd::prelude::*;

verus! {

/// `c` occurs at position `i` of `s` and nowhere earlier.
pub open spec fn char_first_at(s: Seq<char>, c: char, i: int) -> bool {
    &&& 0 <= i < s.len()
    &&& s[i] == c
    &&& forall|j: int| 0 <= j < i ==> s[j] != c
}

/// `c` occurs at position `i` of `s` and nowhere later.
pub open spec fn char_last_at(s: Seq<char>, c: char, i: int) -> bool {
    &&& 0 <= i < s.len()
    &&& s[i] == c
    &&& forall|j: int| i < j < s.len() ==> s[j] != c
}

/// `c` occurs somewhere in `s`.
pub open spec fn has_char(s: Seq<char>, c: char) -> bool {
    exists|i: int| 0 <= i < s.len() && s[i] == c
}

/// The position of the first occurrence of `c` in `s`; meaningful only when
/// some occurrence exists.
pub open spec fn first_char_at(s: Seq<char>, c: char) -> int {
    choose|i: int| char_first_at(s, c, i)
}

/// The needle `n` occurs in `h` starting at position `i`.
pub open spec fn match_at(h: Seq<char>, n: Seq<char>, i: int) -> bool {
    &&& 0 <= i
    &&& i + n.len() <= h.len()
    &&& h.subrange(i, i + n.len() as int) == n
}

/// The needle `n` occurs at position `i` of `h` and at no earlier position.
pub open spec fn str_first_at(h: Seq<char>, n: Seq<char>, i: int) -> bool {
    &&& match_at(h, n, i)
    &&& forall|j: int| 0 <= j < i ==> !match_at(h, n, j)
}

/// Some position is the first occurrence of `n` in `h`.
pub open spec fn has_first(h: Seq<char>, n: Seq<char>) -> bool {
    exists|i: int| str_first_at(h, n, i)
}

/// The position of the first occurrence of `n` in `h`; meaningful only when
/// `has_first(h, n)` holds.
pub open spec fn first_at(h: Seq<char>, n: Seq<char>) -> int {
    choose|i: int| str_first_at(h, n, i)
}

pub proof fn lemma_char_first_at_unique(s: Seq<char>, c: char, i: int, j: int)
    requires
        char_first_at(s, c, i),
        char_first_at(s, c, j),
    ensures
        i == j,
{
    if i < j {
        assert(s[i] != c);
    }
    if j < i {
        assert(s[j] != c);
    }
}

pub proof fn lemma_char_last_at_unique(s: Seq<char>, c: char, i: int, j: int)
    requires
        char_last_at(s, c, i),
        char_last_at(s, c, j),
    ensures
        i == j,
{
    if i < j {
        assert(s[j] != c);
    }
    if j < i {
        assert(s[i] != c);
    }
}

/// A witness for the first occurrence of `c` fixes `first_char_at`.
pub proof fn lemma_char_first_pins(s: Seq<char>, c: char, i: int)
    requires
        char_first_at(s, c, i),
    ensures
        first_char_at(s, c) == i,
{
    assert(char_first_at(s, c, first_char_at(s, c)));
    lemma_char_first_at_unique(s, c, i, first_char_at(s, c));
}

pub proof fn lemma_str_first_at_unique(h: Seq<char>, n: Seq<char>, i: int, j: int)
    requires
        str_first_at(h, n, i),
        str_first_at(h, n, j),
    ensures
        i == j,
{
    if i < j {
        assert(!match_at(h, n, i));
    }
    if j < i {
        assert(!match_at(h, n, j));
    }
}

/// A witness for the first occurrence of `n` fixes `first_at`.
pub proof fn lemma_first_at_pins(h: Seq<char>, n: Seq<char>, i: int)
    requires
        str_first_at(h, n, i),
    ensures
        has_first(h, n),
        first_at(h, n) == i,
{
    assert(has_first(h, n));
    assert(str_first_at(h, n, first_at(h, n)));
    lemma_str_first_at_unique(h, n, i, first_at(h, n));
}

/// Position of the first occurrence of the character `c` in `s`, if any.
pub fn find_char(s: &str, c: char) -> (r: Option<usize>)
    ensures
        match r {
            Some(i) => char_first_at(s@, c, i as int),
            None => !has_char(s@, c),
        },
{
    let n = s.unicode_len();
    let mut i: usize = 0;
    while i < n
        invariant
            n == s@.len(),
            0 <= i <= n,
            forall|j: int| 0 <= j < i ==> s@[j] != c,
        decreases n - i,
    {
        if s.get_char(i) == c {
            return Some(i);
        }
        i = i + 1;
    }
    None
}

/// Position of the last occurrence of the character `c` in `s`, if any.
pub fn rfind_char(s: &str, c: char) -> (r: Option<usize>)
    ensures
        match r {
            Some(i) => char_last_at(s@, c, i as int),
            None => !has_char(s@, c),
        },
{
    let n = s.unicode_len();
    let mut i: usize = n;
    while i > 0
        invariant
            n == s@.len(),
            0 <= i <= n,
            forall|j: int| i <= j < n ==> s@[j] != c,
        decreases i,
    {
        i = i - 1;
        if s.get_char(i) == c {
            return Some(i);
        }
    }
    None
}

/// Character-for-character equality of two text slices.
pub fn str_eq(a: &str, b: &str) -> (r: bool)
    ensures
        r == (a@ == b@),
{
    let na = a.unicode_len();
    let nb = b.unicode_len();
    if na != nb {
        return false;
    }
    let mut i: usize = 0;
    while i < na
        invariant
            na == a@.len(),
            na == b@.len(),
            0 <= i <= na,
            forall|j: int| 0 <= j < i ==> a@[j] == b@[j],
        decreases na - i,
    {
        if a.get_char(i) != b.get_char(i) {
            return false;
        }
        i = i + 1;
    }
    proof {
        assert(a@ =~= b@);
    }
    true
}

/// Does `n` occur in `h` starting exactly at position `i`?
fn match_here(h: &str, n: &str, i: usize) -> (r: bool)
    requires
        i + n@.len() <= h@.len(),
    ensures
        r == match_at(h@, n@, i as int),
{
    let hl = h.unicode_len();
    let nl = n.unicode_len();
    let mut k: usize = 0;
    while k < nl
        invariant
            hl == h@.len(),
            i + nl <= hl,
            nl == n@.len(),
            0 <= k <= nl,
            forall|t: int| 0 <= t < k ==> h@[i + t] == n@[t],
        decreases nl - k,
    {
        if h.get_char(i + k) != n.get_char(k) {
            proof {
                assert(h@.subrange(i as int, i as int + nl as int)[k as int] != n@[k as int]);
            }
            return false;
        }
        k = k + 1;
    }
    proof {
        assert(h@.subrange(i as int, i as int + nl as int) =~= n@);
    }
    true
}

/// Position of the first occurrence of the substring `n` in `h`, if any.
pub fn find_str(h: &str, n: &str) -> (r: Option<usize>)
    ensures
        match r {
            Some(i) => str_first_at(h@, n@, i as int),
            None => !has_first(h@, n@),
        },
{
    let hl = h.unicode_len();
    let nl = n.unicode_len();
    if nl > hl {
        return None;
    }
    if nl == 0 {
        proof {
            assert(h@.subrange(0, 0) =~= n@);
        }
        return Some(0);
    }
    let mut i: usize = 0;
    while i <= hl - nl
        invariant
            1 <= nl <= hl,
            hl == h@.len(),
            nl == n@.len(),
            0 <= i <= hl - nl + 1,
            forall|j: int| 0 <= j < i ==> !match_at(h@, n@, j),
        decreases hl - nl - i + 1,
    {
        if match_here(h, n, i) {
            return Some(i);
        }
        i = i + 1;
    }
    None
}

} // verus!
