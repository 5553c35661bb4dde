//! Equality and lexicographic order of byte arrays.

use vstd::prelude::*;

use crate::ordered::Position;

verus! {

/// Whether `a` comes before `b` in lexicographic order: at the first index at
/// which they differ, `a` holds the smaller byte.
pub open spec fn lexicographically_before<const N: usize>(a: [u8; N], b: [u8; N]) -> bool {
    exists|i: int| #[trigger] first_difference(a, b, i) && a[i] < b[i]
}

/// `i` is the first index at which `a` and `b` differ.
pub open spec fn first_difference<const N: usize>(a: [u8; N], b: [u8; N], i: int) -> bool {
    &&& 0 <= i < N
    &&& a[i] != b[i]
    &&& forall|j: int| 0 <= j < i ==> a[j] == b[j]
}

pub(crate) fn arrays_equal<const N: usize>(a: &[u8; N], b: &[u8; N]) -> (equal: bool)
    ensures
        equal == (*a == *b),
{
    let mut i: usize = 0;
    while i < N
        invariant
            0 <= i <= N,
            forall|j: int| 0 <= j < i ==> a[j] == b[j],
        decreases N - i,
    {
        if a[i] != b[i] {
            return false;
        }
        i += 1;
    }
    assert(*a =~= *b);
    true
}

pub(crate) fn vectors_equal(a: &Vec<u8>, b: &Vec<u8>) -> (equal: bool)
    ensures
        equal == (a@ == b@),
{
    if a.len() != b.len() {
        return false;
    }
    let mut i: usize = 0;
    while i < a.len()
        invariant
            a@.len() == b@.len(),
            i <= a@.len(),
            forall|j: int| 0 <= j < i ==> a@[j] == b@[j],
        decreases a@.len() - i,
    {
        if a[i] != b[i] {
            return false;
        }
        i += 1;
    }
    assert(a@ =~= b@);
    true
}

/// Where `a` stands relative to `b` in lexicographic order.
pub(crate) fn locate_array<const N: usize>(a: &[u8; N], b: &[u8; N]) -> (position: Position)
    ensures
        match position {
            Position::Before => lexicographically_before(*a, *b),
            Position::Same => *a == *b,
            Position::After => lexicographically_before(*b, *a),
        },
{
    let mut i: usize = 0;
    while i < N
        invariant
            0 <= i <= N,
            forall|j: int| 0 <= j < i ==> a[j] == b[j],
        decreases N - i,
    {
        if a[i] < b[i] {
            assert(first_difference(*a, *b, i as int));
            return Position::Before;
        }
        if a[i] > b[i] {
            assert(first_difference(*b, *a, i as int));
            return Position::After;
        }
        i += 1;
    }
    assert(*a =~= *b);
    Position::Same
}

pub(crate) proof fn lemma_order_is_asymmetric<const N: usize>(a: [u8; N], b: [u8; N])
    requires
        lexicographically_before(a, b),
    ensures
        a != b,
        !lexicographically_before(b, a),
{
    let i = choose|i: int| first_difference(a, b, i) && a[i] < b[i];
    if lexicographically_before(b, a) {
        let j = choose|j: int| first_difference(b, a, j) && b[j] < a[j];
        assert(i == j);
    }
}

pub(crate) proof fn lemma_order_is_transitive<const N: usize>(
    a: [u8; N],
    b: [u8; N],
    c: [u8; N],
)
    requires
        lexicographically_before(a, b),
        lexicographically_before(b, c),
    ensures
        lexicographically_before(a, c),
{
    let i = choose|i: int| first_difference(a, b, i) && a[i] < b[i];
    let j = choose|j: int| first_difference(b, c, j) && b[j] < c[j];
    let k = if i < j { i } else { j };
    assert(first_difference(a, c, k));
}

} // verus!
