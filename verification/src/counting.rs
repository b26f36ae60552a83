//! Counting helpers for the payload arena and the dirty chain.

use vstd::prelude::*;

verus! {

/// Number of occupied (`Some`) slots in an arena of payload slots.
pub open spec fn count_some<T>(s: Seq<Option<T>>) -> int
    decreases s.len(),
{
    if s.len() == 0 {
        0
    } else {
        count_some(s.drop_last()) + if s.last() is Some {
            1int
        } else {
            0int
        }
    }
}

pub proof fn lemma_count_some_push<T>(s: Seq<Option<T>>, v: Option<T>)
    ensures
        count_some(s.push(v)) == count_some(s) + if v is Some {
            1int
        } else {
            0int
        },
{
    assert(s.push(v).drop_last() =~= s);
    assert(s.push(v).last() == v);
}

pub proof fn lemma_count_some_update<T>(s: Seq<Option<T>>, i: int, v: Option<T>)
    requires
        0 <= i < s.len(),
    ensures
        count_some(s.update(i, v)) == count_some(s) - (if s[i] is Some {
            1int
        } else {
            0int
        }) + (if v is Some {
            1int
        } else {
            0int
        }),
    decreases s.len(),
{
    let u = s.update(i, v);
    if i == s.len() - 1 {
        assert(u.drop_last() =~= s.drop_last());
        assert(u.last() == v);
    } else {
        assert(u.drop_last() =~= s.drop_last().update(i, v));
        assert(u.last() == s.last());
        lemma_count_some_update(s.drop_last(), i, v);
    }
}

pub proof fn lemma_count_some_all_none<T>(s: Seq<Option<T>>)
    requires
        forall|p: int| 0 <= p < s.len() ==> s[p] is None,
    ensures
        count_some(s) == 0,
    decreases s.len(),
{
    if s.len() > 0 {
        lemma_count_some_all_none(s.drop_last());
    }
}

pub proof fn lemma_count_some_take_step<T>(s: Seq<Option<T>>, i: int)
    requires
        0 <= i < s.len(),
    ensures
        count_some(s.take(i + 1)) == count_some(s.take(i)) + if s[i] is Some {
            1int
        } else {
            0int
        },
{
    assert(s.take(i + 1).drop_last() =~= s.take(i));
    assert(s.take(i + 1).last() == s[i]);
}

pub proof fn lemma_count_some_take_all<T>(s: Seq<Option<T>>)
    ensures
        count_some(s.take(s.len() as int)) == count_some(s),
{
    assert(s.take(s.len() as int) =~= s);
}

/// Number of times `x` occurs in a sequence of cell indices.
pub open spec fn occurrences(s: Seq<int>, x: int) -> int
    decreases s.len(),
{
    if s.len() == 0 {
        0
    } else {
        occurrences(s.drop_last(), x) + if s.last() == x {
            1int
        } else {
            0int
        }
    }
}

pub proof fn lemma_occurrences_zero(s: Seq<int>, x: int)
    requires
        !s.contains(x),
    ensures
        occurrences(s, x) == 0,
    decreases s.len(),
{
    if s.len() > 0 {
        assert(forall|k: int| 0 <= k < s.len() - 1 ==> s.drop_last()[k] == s[k]);
        assert(!s.drop_last().contains(x));
        lemma_occurrences_zero(s.drop_last(), x);
        assert(s[s.len() - 1] != x);
    }
}

/// In a duplicate-free sequence, an element that occurs at all occurs
/// exactly once.
pub proof fn lemma_occurrences_once(s: Seq<int>, x: int)
    requires
        forall|k1: int, k2: int| 0 <= k1 < k2 < s.len() ==> s[k1] != s[k2],
        s.contains(x),
    ensures
        occurrences(s, x) == 1,
    decreases s.len(),
{
    let last = s[s.len() - 1];
    if last == x {
        assert(forall|k: int| 0 <= k < s.len() - 1 ==> s.drop_last()[k] == s[k]);
        assert(!s.drop_last().contains(x)) by {
            if s.drop_last().contains(x) {
                let k = choose|k: int| 0 <= k < s.drop_last().len() && s.drop_last()[k] == x;
                assert(s[k] == s[s.len() - 1]);
            }
        }
        lemma_occurrences_zero(s.drop_last(), x);
    } else {
        let k = choose|k: int| 0 <= k < s.len() && s[k] == x;
        assert(k < s.len() - 1);
        assert(s.drop_last()[k] == x);
        assert(s.drop_last().contains(x));
        lemma_occurrences_once(s.drop_last(), x);
    }
}

} // verus!
