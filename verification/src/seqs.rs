//! First-occurrence lookups over sequences.

use vstd::prelude::*;

verus! {

/// Index of the first occurrence of `x` in `s`, or -1.
pub open spec fn index_of<T>(s: Seq<T>, x: T) -> int
    decreases s.len(),
{
    if s.len() == 0 {
        -1
    } else if s[0] == x {
        0
    } else {
        let r = index_of(s.drop_first(), x);
        if r < 0 {
            -1
        } else {
            r + 1
        }
    }
}

pub proof fn lemma_index_of<T>(s: Seq<T>, x: T)
    ensures
        -1 <= index_of(s, x) < s.len(),
        index_of(s, x) >= 0 ==> s[index_of(s, x)] == x && forall|j: int| 0 <= j < index_of(s, x) ==> s[j] != x,
        index_of(s, x) < 0 <==> !s.contains(x),
    decreases s.len(),
{
    if s.len() > 0 && s[0] != x {
        lemma_index_of(s.drop_first(), x);
        if s.contains(x) {
            let j = choose|j: int| 0 <= j < s.len() && s[j] == x;
            assert(s.drop_first()[j - 1] == x);
        }
        if index_of(s, x) >= 0 {
            assert forall|j: int| 0 <= j < index_of(s, x) implies s[j] != x by {
                if j > 0 {
                    assert(s[j] == s.drop_first()[j - 1]);
                }
            }
        }
    }
}

pub proof fn lemma_index_of_at<T>(s: Seq<T>, x: T, i: int)
    requires
        0 <= i < s.len(),
        s[i] == x,
        forall|j: int| 0 <= j < i ==> s[j] != x,
    ensures
        index_of(s, x) == i,
{
    lemma_index_of(s, x);
    let k = index_of(s, x);
    assert(k >= 0);
    if k < i {
        assert(s[k] == x);
    }
}

/// No element of `s` occurs twice.
pub open spec fn distinct<T>(s: Seq<T>) -> bool {
    forall|i: int, j: int| 0 <= i < j < s.len() ==> s[i] != s[j]
}

} // verus!
