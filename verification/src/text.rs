//! Small helpers on strings.

use vstd::prelude::*;

verus! {

/// Whether two strings hold the same characters.
pub fn same_text(a: &String, b: &String) -> (r: bool)
    ensures
        r == (a@ == b@),
{
    *a == *b
}

/// Whether two string slices hold the same characters.
pub fn same_str(a: &str, b: &str) -> (r: bool)
    ensures
        r == (a@ == b@),
{
    let x = a.as_bytes();
    let y = b.as_bytes();
    if x.len() != y.len() {
        return false;
    }
    let mut i: usize = 0;
    while i < x.len()
        invariant
            i <= x.len(),
            x.len() == y.len(),
            x@ == vstd::utf8::encode_utf8(a@),
            y@ == vstd::utf8::encode_utf8(b@),
            forall|j: int| 0 <= j < i ==> x@[j] == y@[j],
        decreases x.len() - i,
    {
        if x[i] != y[i] {
            return false;
        }
        i += 1;
    }
    proof {
        assert(x@ =~= y@);
        vstd::utf8::encode_utf8_decode_utf8(a@);
        vstd::utf8::encode_utf8_decode_utf8(b@);
    }
    true
}

/// Whether `i` is the first position at which `keys` holds `k`.
pub open spec fn first_at(keys: Seq<Seq<char>>, k: Seq<char>, i: int) -> bool {
    &&& 0 <= i < keys.len()
    &&& keys[i] == k
    &&& forall|j: int| 0 <= j < i ==> keys[j] != k
}

/// The first position at which `keys` holds `k`, if there is one.
pub open spec fn position(keys: Seq<Seq<char>>, k: Seq<char>) -> Option<int> {
    if exists|i: int| first_at(keys, k, i) {
        Some(choose|i: int| first_at(keys, k, i))
    } else {
        None
    }
}

/// Whether no key occurs twice.
pub open spec fn distinct(keys: Seq<Seq<char>>) -> bool {
    forall|i: int, j: int| 0 <= i < j < keys.len() ==> keys[i] != keys[j]
}

/// A key that was found at `i`, with none before it, is at `position`.
pub proof fn lemma_position_found(keys: Seq<Seq<char>>, k: Seq<char>, i: int)
    requires
        first_at(keys, k, i),
    ensures
        position(keys, k) == Some(i),
{
    let c = choose|c: int| first_at(keys, k, c);
    assert(first_at(keys, k, c));
    if c < i {
        assert(keys[c] != k);
    }
    if i < c {
        assert(keys[i] != k);
    }
}

/// A key that occurs nowhere has no `position`.
pub proof fn lemma_position_absent(keys: Seq<Seq<char>>, k: Seq<char>)
    requires
        forall|j: int| 0 <= j < keys.len() ==> keys[j] != k,
    ensures
        position(keys, k) is None,
{
}

/// What `position` says when it finds a key, and when it does not.
pub proof fn lemma_position(keys: Seq<Seq<char>>, k: Seq<char>)
    ensures
        match position(keys, k) {
            Some(i) => first_at(keys, k, i),
            None => forall|j: int| 0 <= j < keys.len() ==> keys[j] != k,
        },
{
    if exists|i: int| first_at(keys, k, i) {
    } else {
        assert forall|j: int| 0 <= j < keys.len() implies keys[j] != k by {
            if keys[j] == k {
                lemma_first_exists(keys, k, j);
            }
        }
    }
}

/// If `k` occurs at `j`, it has a first occurrence.
proof fn lemma_first_exists(keys: Seq<Seq<char>>, k: Seq<char>, j: int)
    requires
        0 <= j < keys.len(),
        keys[j] == k,
    ensures
        exists|i: int| first_at(keys, k, i),
    decreases j,
{
    if forall|m: int| 0 <= m < j ==> keys[m] != k {
        assert(first_at(keys, k, j));
    } else {
        let m = choose|m: int| 0 <= m < j && keys[m] == k;
        lemma_first_exists(keys, k, m);
    }
}

} // verus!
