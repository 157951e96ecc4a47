//! Keys as descent paths: one base-16 digit per trie level.

use vstd::prelude::*;

verus! {

/// A descent path: base-16 digits, the first one taken at the root.
pub type Nibbles = Vec<u8>;

/// The descent path of a key: each byte gives its high digit, then its low one.
pub open spec fn nibbles_of(key: Seq<u8>) -> Seq<u8> {
    Seq::new(
        2 * key.len(),
        |i: int|
            if i % 2 == 0 {
                key[i / 2] / 16
            } else {
                key[i / 2] % 16
            },
    )
}

/// Whether every element of a path is a base-16 digit.
pub open spec fn is_path(path: Seq<u8>) -> bool {
    forall|i: int| 0 <= i < path.len() ==> #[trigger] path[i] < 16
}

/// Whether path `b` starts with path `a`.
pub open spec fn extends(a: Seq<u8>, b: Seq<u8>) -> bool {
    a.len() <= b.len() && b.subrange(0, a.len() as int) == a
}

/// Whether the descent path of a key, and the nodes along it, can be held in
/// memory on this machine.
pub open spec fn key_fits(key: Seq<u8>) -> bool {
    2 * key.len() < usize::MAX
}

/// The descent path of a key is made of base-16 digits.
pub proof fn lemma_nibbles_are_path(key: Seq<u8>)
    ensures
        is_path(nibbles_of(key)),
        nibbles_of(key).len() == 2 * key.len(),
{
}

/// Different keys have different descent paths.
pub proof fn law_distinct_keys_have_distinct_paths(a: Seq<u8>, b: Seq<u8>)
    requires
        nibbles_of(a) == nibbles_of(b),
    ensures
        a == b,
{
    assert(nibbles_of(a).len() == 2 * a.len());
    assert(nibbles_of(b).len() == 2 * b.len());
    assert forall|i: int| 0 <= i < a.len() implies a[i] == b[i] by {
        let na = nibbles_of(a);
        let nb = nibbles_of(b);
        assert(na[2 * i] == a[(2 * i) / 2] / 16);
        assert(na[2 * i + 1] == a[(2 * i + 1) / 2] % 16);
        assert(nb[2 * i] == b[(2 * i) / 2] / 16);
        assert(nb[2 * i + 1] == b[(2 * i + 1) / 2] % 16);
    }
    assert(a =~= b);
}

/// Expands a key into its descent path.
pub fn key_as_nibbles(key: Vec<u8>) -> (path: Nibbles)
    requires
        key_fits(key@),
    ensures
        path@ == nibbles_of(key@),
{
    let mut path: Vec<u8> = Vec::new();
    let mut i: usize = 0;
    while i < key.len()
        invariant
            i <= key@.len(),
            key_fits(key@),
            path@.len() == 2 * i,
            forall|j: int| 0 <= j < path@.len() ==> path@[j] == nibbles_of(key@)[j],
        decreases key@.len() - i,
    {
        let b: u8 = key[i];
        path.push(b / 16);
        path.push(b % 16);
        i += 1;
    }
    assert(path@ =~= nibbles_of(key@));
    path
}

/// Tells whether path `b` starts with path `a`.
pub fn b_extends_a(a: &Nibbles, b: &Nibbles) -> (r: bool)
    ensures
        r == extends(a@, b@),
{
    if a.len() > b.len() {
        return false;
    }
    let mut i: usize = 0;
    while i < a.len()
        invariant
            i <= a@.len() <= b@.len(),
            forall|j: int| 0 <= j < i ==> a@[j] == b@[j],
        decreases a@.len() - i,
    {
        if a[i] != b[i] {
            assert(b@.subrange(0, a@.len() as int)[i as int] == b@[i as int]);
            return false;
        }
        i += 1;
    }
    assert(b@.subrange(0, a@.len() as int) =~= a@);
    true
}

/// Tells whether two byte strings hold the same bytes.
pub fn same_bytes(a: &Vec<u8>, b: &Vec<u8>) -> (r: bool)
    ensures
        r == (a@ == b@),
{
    if a.len() != b.len() {
        return false;
    }
    let mut i: usize = 0;
    while i < a.len()
        invariant
            i <= a@.len(),
            a@.len() == b@.len(),
            forall|j: int| 0 <= j < i ==> a@[j] == b@[j],
        decreases a@.len() - i,
    {
        if a[i] != b[i] {
            return false;
        }
        i += 1;
    }
    assert(a@ =~= b@);
    true
}

/// A copy of a byte string.
pub fn copy_bytes(a: &Vec<u8>) -> (r: Vec<u8>)
    ensures
        r@ == a@,
{
    let r = a.clone();
    assert(r@ =~= a@);
    r
}

} // verus!
