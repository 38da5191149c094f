//! What lists hold.

use vstd::prelude::*;

verus! {

/// What two lists hold together, one of them holds.
pub proof fn lemma_contains_concat<T>(a: Seq<T>, b: Seq<T>, x: T)
    ensures
        (a + b).contains(x) <==> a.contains(x) || b.contains(x),
{
    if a.contains(x) {
        let i = choose|i: int| 0 <= i < a.len() && a[i] == x;
        assert((a + b)[i] == x);
    }
    if b.contains(x) {
        let i = choose|i: int| 0 <= i < b.len() && b[i] == x;
        assert((a + b)[a.len() + i] == x);
    }
    if (a + b).contains(x) {
        let i = choose|i: int| 0 <= i < (a + b).len() && (a + b)[i] == x;
        if i < a.len() {
            assert(a[i] == x);
        } else {
            assert(b[i - a.len()] == x);
        }
    }
}

/// What a longer list holds, the shorter one holds or it is what was added.
pub proof fn lemma_contains_push<T>(a: Seq<T>, last: T, x: T)
    ensures
        a.push(last).contains(x) <==> a.contains(x) || last == x,
{
    lemma_contains_concat(a, seq![last], x);
    assert(a.push(last) =~= a + seq![last]);
    assert(seq![last][0] == last);
}

/// Two lists of which each holds nothing twice, and which share nothing, hold nothing twice
/// together.
pub proof fn lemma_distinct_concat<T>(a: Seq<T>, b: Seq<T>)
    requires
        a.no_duplicates(),
        b.no_duplicates(),
        forall|x: T| !(#[trigger] a.contains(x) && b.contains(x)),
    ensures
        (a + b).no_duplicates(),
{
    let c = a + b;
    assert forall|i: int, j: int| 0 <= i < c.len() && 0 <= j < c.len() && i != j implies c[i]
        != c[j] by {
        if i < a.len() && j >= a.len() {
            assert(a[i] == c[i] && b[j - a.len()] == c[j]);
            assert(a.contains(c[i]) && b.contains(c[j]));
        }
        if j < a.len() && i >= a.len() {
            assert(a[j] == c[j] && b[i - a.len()] == c[i]);
            assert(a.contains(c[j]) && b.contains(c[i]));
        }
    }
}

} // verus!
