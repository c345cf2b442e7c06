//! Small facts and searches on sequences of room ids.

use vstd::prelude::*;

verus! {

/// The position of `x` in `v`, if it occurs.
pub(crate) fn find(v: &Vec<usize>, x: usize) -> (r: Option<usize>)
    ensures
        match r {
            Some(i) => i < v@.len() && v@[i as int] == x,
            None => !v@.contains(x),
        },
{
    let mut i: usize = 0;
    while i < v.len()
        invariant
            i <= v@.len(),
            forall|j: int| 0 <= j < i ==> v@[j] != x,
        decreases v@.len() - i,
    {
        if v[i] == x {
            return Some(i);
        }
        i = i + 1;
    }
    None
}

/// The position of `x` in `v`.
pub(crate) fn position_of(v: &Vec<usize>, x: usize) -> (r: usize)
    requires
        v@.contains(x),
    ensures
        r < v@.len(),
        v@[r as int] == x,
{
    let mut i: usize = 0;
    while i < v.len()
        invariant
            i <= v@.len(),
            v@.contains(x),
            forall|j: int| 0 <= j < i ==> v@[j] != x,
        decreases v@.len() - i,
    {
        if v[i] == x {
            return i;
        }
        i = i + 1;
    }
    proof {
        let j = choose|j: int| 0 <= j < v@.len() && v@[j] == x;
        assert(v@[j] == x);
    }
    0
}

/// Removing an entry of a sequence without repeats drops exactly that value.
pub(crate) proof fn lemma_remove_distinct(s: Seq<usize>, i: int)
    requires
        s.no_duplicates(),
        0 <= i < s.len(),
    ensures
        s.remove(i).no_duplicates(),
        forall|w: usize| #[trigger] s.remove(i).contains(w) <==> (s.contains(w) && w != s[i]),
{
    let r = s.remove(i);
    assert forall|a: int, b: int| 0 <= a < r.len() && 0 <= b < r.len() && a != b implies r[a] != r[b] by {
        let oa = if a < i { a } else { a + 1 };
        let ob = if b < i { b } else { b + 1 };
        assert(r[a] == s[oa] && r[b] == s[ob]);
    }
    assert forall|w: usize| #[trigger] r.contains(w) <==> (s.contains(w) && w != s[i]) by {
        if r.contains(w) {
            let a = choose|a: int| 0 <= a < r.len() && r[a] == w;
            let oa = if a < i { a } else { a + 1 };
            assert(s[oa] == w);
        }
        if s.contains(w) && w != s[i] {
            let a = choose|a: int| 0 <= a < s.len() && s[a] == w;
            if a < i {
                assert(r[a] == w);
            } else {
                assert(r[a - 1] == w);
            }
        }
    }
}

/// Swap-removing an entry of a sequence without repeats drops exactly that value.
pub(crate) proof fn lemma_swap_remove_distinct(s: Seq<usize>, i: int)
    requires
        s.no_duplicates(),
        0 <= i < s.len(),
    ensures
        s.update(i, s.last()).drop_last().no_duplicates(),
        forall|w: usize| #[trigger] s.update(i, s.last()).drop_last().contains(w) <==> (s.contains(w) && w != s[i]),
{
    let l = s.len() - 1;
    let r = s.update(i, s.last()).drop_last();
    assert forall|a: int| 0 <= a < r.len() implies #[trigger] r[a] == (if a == i { s[l] } else { s[a] }) by {}
    assert forall|a: int, b: int| 0 <= a < r.len() && 0 <= b < r.len() && a != b implies r[a] != r[b] by {
        let oa = if a == i { l } else { a };
        let ob = if b == i { l } else { b };
        assert(r[a] == s[oa] && r[b] == s[ob]);
    }
    assert forall|w: usize| #[trigger] r.contains(w) <==> (s.contains(w) && w != s[i]) by {
        if r.contains(w) {
            let a = choose|a: int| 0 <= a < r.len() && r[a] == w;
            let oa = if a == i { l } else { a };
            assert(s[oa] == w);
        }
        if s.contains(w) && w != s[i] {
            let a = choose|a: int| 0 <= a < s.len() && s[a] == w;
            if a == l {
                assert(r[i] == w);
            } else {
                assert(r[a] == w);
            }
        }
    }
}

/// The position in `pool` of the first entry of `path` that `pool` holds.
pub(crate) fn first_in_pool(path: &Vec<usize>, pool: &Vec<usize>) -> (r: Option<usize>)
    ensures
        match r {
            Some(pos) => pos < pool@.len() && exists|k: int|
                0 <= k < path@.len() && path@[k] == pool@[pos as int] && forall|j: int|
                    0 <= j < k ==> !pool@.contains(#[trigger] path@[j]),
            None => forall|k: int| 0 <= k < path@.len() ==> !pool@.contains(#[trigger] path@[k]),
        },
{
    let mut k: usize = 0;
    while k < path.len()
        invariant
            k <= path@.len(),
            forall|j: int| 0 <= j < k ==> !pool@.contains(#[trigger] path@[j]),
        decreases path@.len() - k,
    {
        match find(pool, path[k]) {
            Some(pos) => {
                return Some(pos);
            },
            None => {},
        }
        k = k + 1;
    }
    None
}

} // verus!
