//! Stable ordering of ranges and math candidates by their start offset.
use std::ops::Range;
use vstd::prelude::*;

verus! {

/// Values ordered by a start offset.
pub trait StartKey: Sized {
    spec fn start_key(&self) -> int;

    fn start(&self) -> (r: usize)
        ensures
            r == self.start_key(),
    ;

    fn copy_value(&self) -> (r: Self)
        ensures
            r == *self,
    ;
}

impl StartKey for Range<usize> {
    open spec fn start_key(&self) -> int {
        self.start as int
    }

    fn start(&self) -> (r: usize) {
        self.start
    }

    fn copy_value(&self) -> (r: Self) {
        self.start..self.end
    }
}

/// Insert `x` after the last element whose start is at most `x`'s.
pub open spec fn insert_by_start<T: StartKey>(sorted: Seq<T>, x: T) -> Seq<T>
    decreases sorted.len(),
{
    if sorted.len() == 0 || sorted.last().start_key() <= x.start_key() {
        sorted.push(x)
    } else {
        insert_by_start(sorted.drop_last(), x).push(sorted.last())
    }
}

/// The stable sort of `s` by start offset (elements with equal starts keep
/// their order).
pub open spec fn sort_by_start<T: StartKey>(s: Seq<T>) -> Seq<T>
    decreases s.len(),
{
    if s.len() == 0 {
        seq![]
    } else {
        insert_by_start(sort_by_start(s.drop_last()), s.last())
    }
}

pub open spec fn is_sorted_by_start<T: StartKey>(s: Seq<T>) -> bool {
    forall|i: int, j: int| 0 <= i <= j < s.len() ==> s[i].start_key() <= s[j].start_key()
}

proof fn lemma_insert_at<T: StartKey>(sorted: Seq<T>, x: T, j: int)
    requires
        0 <= j <= sorted.len(),
        forall|k: int| j <= k < sorted.len() ==> (#[trigger] sorted[k]).start_key() > x.start_key(),
        j == 0 || sorted[j - 1].start_key() <= x.start_key(),
    ensures
        insert_by_start(sorted, x) == sorted.take(j).push(x) + sorted.skip(j),
    decreases sorted.len() - j,
{
    if j == sorted.len() {
        assert(sorted.take(j) =~= sorted);
        assert(sorted.skip(j) =~= Seq::<T>::empty());
        assert(sorted.take(j).push(x) + sorted.skip(j) =~= sorted.push(x));
    } else {
        let init = sorted.drop_last();
        assert forall|k: int| j <= k < init.len() implies (#[trigger] init[k]).start_key()
            > x.start_key() by {
            assert(init[k] == sorted[k]);
        }
        if j > 0 {
            assert(init[j - 1] == sorted[j - 1]);
        }
        lemma_insert_at(init, x, j);
        assert(sorted.last() == sorted[sorted.len() - 1]);
        assert(init.take(j) =~= sorted.take(j));
        assert(init.skip(j).push(sorted.last()) =~= sorted.skip(j));
        assert((init.take(j).push(x) + init.skip(j)).push(sorted.last()) =~= sorted.take(j).push(
            x,
        ) + sorted.skip(j));
    }
}

/// `v` stably sorted by start offset (`sort_by_key` on the start).
pub fn sorted_by_start<T: StartKey>(v: &Vec<T>) -> (r: Vec<T>)
    ensures
        r@ == sort_by_start(v@),
{
    let mut out: Vec<T> = Vec::new();
    let n = v.len();
    let mut i: usize = 0;
    assert(v@.take(0) =~= Seq::<T>::empty());
    while i < n
        invariant
            n == v@.len(),
            i <= n,
            out@ == sort_by_start(v@.take(i as int)),
        decreases n - i,
    {
        let x = v[i].copy_value();
        let key = x.start();
        let mut j: usize = out.len();
        while j > 0 && out[j - 1].start() > key
            invariant
                j <= out@.len(),
                key == x.start_key(),
                forall|k: int| j <= k < out@.len() ==> (#[trigger] out@[k]).start_key() > key,
            decreases j,
        {
            j = j - 1;
        }
        proof {
            lemma_insert_at(out@, x, j as int);
            let next = v@.take(i + 1);
            assert(next.drop_last() =~= v@.take(i as int));
            assert(next.last() == v@[i as int]);
        }
        out.insert(j, x);
        assert(out@ =~= sort_by_start(v@.take(i + 1)));
        i = i + 1;
    }
    assert(v@.take(n as int) =~= v@);
    out
}

} // verus!

verus! {

pub proof fn lemma_insert_preserves<T: StartKey>(sorted: Seq<T>, x: T, p: spec_fn(T) -> bool)
    requires
        forall|k: int| 0 <= k < sorted.len() ==> p(#[trigger] sorted[k]),
        p(x),
    ensures
        forall|k: int|
            0 <= k < insert_by_start(sorted, x).len() ==> p(#[trigger] insert_by_start(sorted, x)[k]),
        insert_by_start(sorted, x).len() == sorted.len() + 1,
    decreases sorted.len(),
{
    if sorted.len() == 0 || sorted.last().start_key() <= x.start_key() {
    } else {
        let init = sorted.drop_last();
        assert forall|k: int| 0 <= k < init.len() implies p(#[trigger] init[k]) by {
            assert(init[k] == sorted[k]);
        }
        lemma_insert_preserves(init, x, p);
        assert(p(sorted[sorted.len() - 1]));
    }
}

/// Sorting keeps every property that all elements have, and the length.
pub proof fn lemma_sort_preserves<T: StartKey>(s: Seq<T>, p: spec_fn(T) -> bool)
    requires
        forall|k: int| 0 <= k < s.len() ==> p(#[trigger] s[k]),
    ensures
        forall|k: int| 0 <= k < sort_by_start(s).len() ==> p(#[trigger] sort_by_start(s)[k]),
        sort_by_start(s).len() == s.len(),
    decreases s.len(),
{
    if s.len() > 0 {
        let init = s.drop_last();
        assert forall|k: int| 0 <= k < init.len() implies p(#[trigger] init[k]) by {
            assert(init[k] == s[k]);
        }
        lemma_sort_preserves(init, p);
        assert(p(s[s.len() - 1]));
        lemma_insert_preserves(sort_by_start(init), s.last(), p);
    }
}

} // verus!

verus! {

broadcast use vstd::seq_lib::group_to_multiset_ensures;

proof fn lemma_insert_sorted<T: StartKey>(sorted: Seq<T>, x: T)
    requires
        is_sorted_by_start(sorted),
    ensures
        is_sorted_by_start(insert_by_start(sorted, x)),
        insert_by_start(sorted, x).to_multiset() =~= sorted.to_multiset().insert(x),
    decreases sorted.len(),
{
    if sorted.len() == 0 || sorted.last().start_key() <= x.start_key() {
        let r = sorted.push(x);
        assert forall|i: int, j: int| 0 <= i <= j < r.len() implies r[i].start_key()
            <= r[j].start_key() by {
            if j == sorted.len() && i < j {
                assert(sorted[i].start_key() <= sorted[sorted.len() - 1].start_key());
            }
        }
    } else {
        let init = sorted.drop_last();
        let last = sorted.last();
        assert forall|i: int, j: int| 0 <= i <= j < init.len() implies init[i].start_key()
            <= init[j].start_key() by {
            assert(init[i] == sorted[i]);
            assert(init[j] == sorted[j]);
        }
        lemma_insert_sorted(init, x);
        let p = |y: T| y.start_key() <= last.start_key();
        assert forall|k: int| 0 <= k < init.len() implies p(#[trigger] init[k]) by {
            assert(init[k] == sorted[k]);
            assert(sorted[k].start_key() <= sorted[sorted.len() - 1].start_key());
        }
        lemma_insert_preserves(init, x, p);
        let m = insert_by_start(init, x);
        let r = m.push(last);
        assert forall|i: int, j: int| 0 <= i <= j < r.len() implies r[i].start_key()
            <= r[j].start_key() by {
            if j == m.len() {
                if i < j {
                    assert(p(m[i]));
                }
            } else {
                assert(r[i] == m[i]);
                assert(r[j] == m[j]);
            }
        }
        assert(sorted =~= init.push(last));
    }
}

pub proof fn lemma_sorted_init<T: StartKey>(s: Seq<T>)
    requires
        is_sorted_by_start(s),
        s.len() > 0,
    ensures
        is_sorted_by_start(s.drop_last()),
{
    let init = s.drop_last();
    assert forall|i: int, j: int| 0 <= i <= j < init.len() implies init[i].start_key()
        <= init[j].start_key() by {
        assert(init[i] == s[i]);
        assert(init[j] == s[j]);
    }
}

pub proof fn lemma_push_sorted<T: StartKey>(s: Seq<T>, x: T)
    requires
        is_sorted_by_start(s),
        forall|k: int| 0 <= k < s.len() ==> (#[trigger] s[k]).start_key() <= x.start_key(),
    ensures
        is_sorted_by_start(s.push(x)),
{
    let r = s.push(x);
    assert forall|i: int, j: int| 0 <= i <= j < r.len() implies r[i].start_key()
        <= r[j].start_key() by {
        if j == s.len() {
            if i < j {
                assert(r[i] == s[i]);
            }
        } else {
            assert(r[i] == s[i]);
            assert(r[j] == s[j]);
        }
    }
}

/// Law: sorting by start puts the values in order of their starts and keeps
/// exactly the values it was given, each as often.
pub proof fn law_sort_by_start<T: StartKey>(s: Seq<T>)
    ensures
        is_sorted_by_start(sort_by_start(s)),
        sort_by_start(s).to_multiset() =~= s.to_multiset(),
    decreases s.len(),
{
    if s.len() > 0 {
        law_sort_by_start(s.drop_last());
        lemma_insert_sorted(sort_by_start(s.drop_last()), s.last());
        assert(s =~= s.drop_last().push(s.last()));
    }
}

} // verus!
