//! Small sequence tools used throughout the contracts: the first index
//! satisfying a predicate, and the number of elements satisfying one.

use vstd::prelude::*;

verus! {

/// The first index of `s` whose element satisfies `p`, if any.
pub open spec fn first_where<T>(s: Seq<T>, p: spec_fn(T) -> bool) -> Option<int>
    decreases s.len(),
{
    if s.len() == 0 {
        None
    } else if p(s[0]) {
        Some(0)
    } else {
        match first_where(s.drop_first(), p) {
            Some(i) => Some(i + 1),
            None => None,
        }
    }
}

/// What `first_where` returns: a hit is in range, satisfies `p`, and
/// nothing before it does; a miss means nothing does.
pub proof fn lemma_first_where<T>(s: Seq<T>, p: spec_fn(T) -> bool)
    ensures
        match first_where(s, p) {
            Some(i) => 0 <= i < s.len() && p(s[i]) && forall|k: int| 0 <= k < i ==> !p(s[k]),
            None => forall|k: int| 0 <= k < s.len() ==> !p(s[k]),
        },
    decreases s.len(),
{
    if s.len() > 0 && !p(s[0]) {
        lemma_first_where(s.drop_first(), p);
        assert(forall|k: int| 0 < k < s.len() ==> s[k] == s.drop_first()[k - 1]);
    }
}

/// A position that satisfies `p`, with nothing before it satisfying `p`,
/// is exactly what `first_where` returns.
pub proof fn lemma_first_where_is<T>(s: Seq<T>, p: spec_fn(T) -> bool, i: int)
    requires
        0 <= i < s.len(),
        p(s[i]),
        forall|k: int| 0 <= k < i ==> !p(s[k]),
    ensures
        first_where(s, p) == Some(i),
{
    lemma_first_where(s, p);
    match first_where(s, p) {
        Some(j) => {
            if j < i {
                assert(!p(s[j]));
            }
            if j > i {
                assert(!p(s[i]));
            }
        },
        None => {
            assert(!p(s[i]));
        },
    }
}

/// Predicates that agree on every element find the same first index.
pub proof fn lemma_first_where_congruent<T>(
    s: Seq<T>,
    p: spec_fn(T) -> bool,
    q: spec_fn(T) -> bool,
)
    requires
        forall|k: int| 0 <= k < s.len() ==> p(s[k]) == q(s[k]),
    ensures
        first_where(s, p) == first_where(s, q),
{
    lemma_first_where(s, p);
    lemma_first_where(s, q);
    match first_where(s, p) {
        Some(i) => {
            match first_where(s, q) {
                Some(j) => {
                    if i < j {
                        assert(!q(s[i]));
                    }
                    if j < i {
                        assert(!p(s[j]));
                    }
                },
                None => {
                    assert(!q(s[i]));
                },
            }
        },
        None => {
            match first_where(s, q) {
                Some(j) => {
                    assert(!p(s[j]));
                },
                None => {},
            }
        },
    }
}

/// How many elements of `s` satisfy `p`.
pub open spec fn count_where<T>(s: Seq<T>, p: spec_fn(T) -> bool) -> int
    decreases s.len(),
{
    if s.len() == 0 {
        0
    } else {
        count_where(s.drop_last(), p) + if p(s.last()) {
            1int
        } else {
            0int
        }
    }
}

/// Counting one more element extends the count by whether it satisfies the
/// predicate.
pub proof fn lemma_count_take_step<T>(s: Seq<T>, p: spec_fn(T) -> bool, i: int)
    requires
        0 <= i < s.len(),
    ensures
        count_where(s.take(i + 1), p) == count_where(s.take(i), p) + if p(s[i]) {
            1int
        } else {
            0int
        },
{
    assert(s.take(i + 1).drop_last() =~= s.take(i));
    assert(s.take(i + 1).last() == s[i]);
}

/// A count never exceeds the length and never falls below zero.
pub proof fn lemma_count_bounds<T>(s: Seq<T>, p: spec_fn(T) -> bool)
    ensures
        0 <= count_where(s, p) <= s.len(),
    decreases s.len(),
{
    if s.len() > 0 {
        lemma_count_bounds(s.drop_last(), p);
    }
}

/// Two predicates that agree on every element of `s` count the same.
pub proof fn lemma_count_congruent<T>(s: Seq<T>, p: spec_fn(T) -> bool, q: spec_fn(T) -> bool)
    requires
        forall|k: int| 0 <= k < s.len() ==> p(s[k]) == q(s[k]),
    ensures
        count_where(s, p) == count_where(s, q),
    decreases s.len(),
{
    if s.len() > 0 {
        lemma_count_congruent(s.drop_last(), p, q);
    }
}

/// How many integers in `0..n` satisfy `p`.
pub open spec fn count_range(n: int, p: spec_fn(int) -> bool) -> int
    decreases n,
{
    if n <= 0 {
        0
    } else {
        count_range(n - 1, p) + if p(n - 1) {
            1int
        } else {
            0int
        }
    }
}

/// A range count never exceeds the range and never falls below zero.
pub proof fn lemma_count_range_bounds(n: int, p: spec_fn(int) -> bool)
    ensures
        0 <= count_range(n, p) <= (if n >= 0 {
            n
        } else {
            0
        }),
    decreases n,
{
    if n > 0 {
        lemma_count_range_bounds(n - 1, p);
    }
}

/// A predicate nothing satisfies counts zero.
pub proof fn lemma_count_zero<T>(s: Seq<T>, p: spec_fn(T) -> bool)
    requires
        forall|k: int| 0 <= k < s.len() ==> !p(s[k]),
    ensures
        count_where(s, p) == 0,
    decreases s.len(),
{
    if s.len() > 0 {
        lemma_count_zero(s.drop_last(), p);
    }
}

/// A witness that satisfies the predicate makes the count positive.
pub proof fn lemma_count_pos<T>(s: Seq<T>, p: spec_fn(T) -> bool, w: int)
    requires
        0 <= w < s.len(),
        p(s[w]),
    ensures
        count_where(s, p) >= 1,
    decreases s.len(),
{
    if s.len() > 0 {
        lemma_count_bounds(s.drop_last(), p);
        if w < s.len() - 1 {
            lemma_count_pos(s.drop_last(), p, w);
        }
    }
}

} // verus!
