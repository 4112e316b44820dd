//! Section names are matched by their canonical key: the words of the name,
//! one space between two of them.

use crate::text::{is_space, is_whitespace};
use vstd::prelude::*;

verus! {

/// The canonical key of a name. Whitespace at either end is dropped and every
/// run of whitespace between two words becomes one space.
pub open spec fn normalized(s: Seq<char>) -> Seq<char>
    decreases s.len(),
{
    if s.len() == 0 {
        Seq::empty()
    } else {
        let head = normalized(s.drop_last());
        let c = s.last();
        if is_space(c) {
            head
        } else if head.len() > 0 && s.len() >= 2 && is_space(s[s.len() - 2]) {
            head.push(' ').push(c)
        } else {
            head.push(c)
        }
    }
}

/// A key in canonical form: its only whitespace is single spaces, each
/// between two characters that are not whitespace.
pub open spec fn is_canonical(k: Seq<char>) -> bool {
    forall|i: int|
        0 <= i < k.len() && is_space(#[trigger] k[i]) ==> {
            &&& k[i] == ' '
            &&& 0 < i < k.len() - 1
            &&& !is_space(k[i - 1])
        }
}

/// Every key that `normalized` gives is canonical.
pub proof fn lemma_normalized_is_canonical(s: Seq<char>)
    ensures
        is_canonical(normalized(s)),
    decreases s.len(),
{
    if s.len() > 0 {
        lemma_normalized_is_canonical(s.drop_last());
        let head = normalized(s.drop_last());
        let k = normalized(s);
        assert forall|i: int| 0 <= i < k.len() && is_space(#[trigger] k[i]) implies {
            &&& k[i] == ' '
            &&& 0 < i < k.len() - 1
            &&& !is_space(k[i - 1])
        } by {
            if i < head.len() {
                assert(k[i] == head[i]);
                assert(is_space(head[i]));
            }
        }
    }
}

/// On a canonical key, `normalized` reads a prefix back unchanged, but for a
/// space at the prefix's end.
proof fn lemma_canonical_prefix(k: Seq<char>, n: int)
    requires
        is_canonical(k),
        0 <= n <= k.len(),
    ensures
        normalized(k.take(n)) == if n > 0 && is_space(k[n - 1]) {
            k.take(n - 1)
        } else {
            k.take(n)
        },
    decreases n,
{
    if n == 0 {
        assert(k.take(0).len() == 0);
    } else {
        lemma_canonical_prefix(k, n - 1);
        let p = k.take(n);
        assert(p.drop_last() =~= k.take(n - 1));
        assert(p.last() == k[n - 1]);
        if is_space(k[n - 1]) {
        } else if n >= 2 && is_space(k[n - 2]) {
            assert(p[p.len() - 2] == k[n - 2]);
            assert(k.take(n - 2).push(' ').push(k[n - 1]) =~= k.take(n));
        } else {
            if n >= 2 {
                assert(p[p.len() - 2] == k[n - 2]);
            }
            assert(k.take(n - 1).push(k[n - 1]) =~= k.take(n));
        }
    }
}

/// A canonical key is its own key.
pub proof fn lemma_canonical_is_fixed(k: Seq<char>)
    requires
        is_canonical(k),
    ensures
        normalized(k) == k,
{
    lemma_canonical_prefix(k, k.len() as int);
    assert(k.take(k.len() as int) =~= k);
}

/// Normalizing twice gives what normalizing once gives.
pub proof fn lemma_normalized_idempotent(s: Seq<char>)
    ensures
        normalized(normalized(s)) == normalized(s),
{
    lemma_normalized_is_canonical(s);
    lemma_canonical_is_fixed(normalized(s));
}

/// The canonical key of `name`.
pub fn normalize(name: &[char]) -> (key: Vec<char>)
    ensures
        key@ == normalized(name@),
        is_canonical(key@),
{
    let mut key: Vec<char> = Vec::new();
    let mut gap = false;
    let mut i: usize = 0;
    while i < name.len()
        invariant
            i <= name.len(),
            key@ == normalized(name@.take(i as int)),
            gap == (i > 0 && is_space(name@[i - 1])),
        decreases name.len() - i,
    {
        let c = name[i];
        proof {
            let p = name@.take(i + 1);
            assert(p.drop_last() =~= name@.take(i as int));
            assert(p.last() == c);
            if i > 0 {
                assert(p[p.len() - 2] == name@[i - 1]);
            }
        }
        if is_whitespace(c) {
            gap = true;
        } else {
            if gap && key.len() > 0 {
                key.push(' ');
            }
            key.push(c);
            gap = false;
        }
        i += 1;
    }
    proof {
        assert(name@.take(name.len() as int) =~= name@);
        lemma_normalized_is_canonical(name@);
    }
    key
}

} // verus!
