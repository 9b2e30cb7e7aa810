//! Sorting of values with a total order.

use vstd::prelude::*;

verus! {

/// Values with a total order.
pub trait Ranked: Sized {
    /// `self` comes before `other` or is the same.
    spec fn at_most(self, other: Self) -> bool;

    proof fn at_most_is_total(a: Self, b: Self)
        ensures
            Self::at_most(a, b) || Self::at_most(b, a),
    ;

    proof fn at_most_is_transitive(a: Self, b: Self, c: Self)
        requires
            Self::at_most(a, b),
            Self::at_most(b, c),
        ensures
            Self::at_most(a, c),
    ;

    /// Whether `self` comes before `other` or is the same.
    fn is_at_most(&self, other: &Self) -> (out: bool)
        ensures
            out == Self::at_most(*self, *other),
    ;
}

/// No value comes behind one that it should precede.
pub open spec fn sorted<T: Ranked>(s: Seq<T>) -> bool {
    forall|i: int, j: int| 0 <= i < j < s.len() ==> T::at_most(#[trigger] s[i], #[trigger] s[j])
}

/// Nothing in `s` is larger than `x`.
spec fn bounded<T: Ranked>(s: Seq<T>, x: T) -> bool {
    forall|i: int| 0 <= i < s.len() ==> T::at_most(#[trigger] s[i], x)
}

/// The values from the last to the first.
fn reverse<T>(v: Vec<T>) -> (out: Vec<T>)
    ensures
        out@ == v@.reverse(),
{
    let mut rest = v;
    let mut out: Vec<T> = Vec::with_capacity(rest.len());
    while rest.len() > 0
        invariant
            out@ + rest@.reverse() =~= v@.reverse(),
        decreases rest@.len(),
    {
        let ghost before = rest@;
        if let Some(x) = rest.pop() {
            out.push(x);
            assert(before.reverse() =~= seq![x] + rest@.reverse());
        }
    }
    out
}

proof fn lemma_reverse_multiset<T>(s: Seq<T>)
    ensures
        s.reverse().to_multiset() == s.to_multiset(),
    decreases s.len(),
{
    if s.len() > 0 {
        let init = s.drop_last();
        lemma_reverse_multiset(init);
        assert(s.reverse() =~= seq![s.last()] + init.reverse());
        assert(s =~= init + seq![s.last()]);
        vstd::seq_lib::lemma_multiset_commutative(seq![s.last()], init.reverse());
        vstd::seq_lib::lemma_multiset_commutative(init, seq![s.last()]);
        assert(s.reverse().to_multiset() =~= s.to_multiset());
    } else {
        assert(s.reverse() =~= s);
    }
}

/// The largest values first: the part of a merge that is done.
spec fn merged<T: Ranked>(done: Seq<T>, a: Seq<T>, b: Seq<T>) -> bool {
    &&& sorted(done.reverse())
    &&& forall|k: int| 0 <= k < done.len() ==> bounded(a, #[trigger] done[k]) && bounded(b, done[k])
}

proof fn lemma_merge_step<T: Ranked>(done: Seq<T>, a: Seq<T>, b: Seq<T>)
    requires
        a.len() > 0,
        sorted(a),
        sorted(b),
        merged(done, a, b),
        b.len() > 0 ==> T::at_most(b.last(), a.last()),
    ensures
        merged(done.push(a.last()), a.drop_last(), b),
{
    let x = a.last();
    let more = done.push(x);
    assert(more.reverse() =~= seq![x] + done.reverse());
    assert forall|i: int, j: int| 0 <= i < j < more.len() implies T::at_most(
        #[trigger] more.reverse()[i],
        #[trigger] more.reverse()[j],
    ) by {
        if i == 0 {
            let k = done.len() - j;
            assert(more.reverse()[j] == done[k]);
            assert(bounded(a, done[k]));
            assert(T::at_most(a[a.len() - 1], done[k]));
        } else {
            assert(T::at_most(done.reverse()[i - 1], done.reverse()[j - 1]));
        }
    }
    assert forall|k: int| 0 <= k < more.len() implies bounded(a.drop_last(), #[trigger] more[k]) && bounded(
        b,
        more[k],
    ) by {
        if k < done.len() {
            assert(bounded(a, done[k]));
            assert forall|i: int| 0 <= i < a.len() - 1 implies T::at_most(#[trigger] a.drop_last()[i], more[k]) by {
                assert(T::at_most(a[i], done[k]));
            }
            assert(bounded(b, done[k]));
        } else {
            assert forall|i: int| 0 <= i < a.len() - 1 implies T::at_most(#[trigger] a.drop_last()[i], x) by {
                assert(T::at_most(a[i], a[a.len() - 1]));
            }
            assert forall|i: int| 0 <= i < b.len() implies T::at_most(#[trigger] b[i], x) by {
                if i < b.len() - 1 {
                    assert(T::at_most(b[i], b[b.len() - 1]));
                    T::at_most_is_transitive(b[i], b.last(), x);
                }
            }
        }
    }
}

proof fn lemma_merge_count<T>(done: Seq<T>, a: Seq<T>, b: Seq<T>)
    requires
        a.len() > 0,
    ensures
        done.push(a.last()).to_multiset().add(a.drop_last().to_multiset()).add(b.to_multiset())
            == done.to_multiset().add(a.to_multiset()).add(b.to_multiset()),
{
    let x = seq![a.last()];
    assert(done.push(a.last()) =~= done + x);
    assert(a =~= a.drop_last() + x);
    vstd::seq_lib::lemma_multiset_commutative(done, x);
    vstd::seq_lib::lemma_multiset_commutative(a.drop_last(), x);
    assert(done.push(a.last()).to_multiset().add(a.drop_last().to_multiset()).add(b.to_multiset())
        =~= done.to_multiset().add(a.to_multiset()).add(b.to_multiset()));
}

/// Merge two sorted vectors.
fn merge<T: Ranked>(a: Vec<T>, b: Vec<T>) -> (out: Vec<T>)
    requires
        sorted(a@),
        sorted(b@),
    ensures
        sorted(out@),
        out@.to_multiset() == a@.to_multiset().add(b@.to_multiset()),
{
    let ghost total = a@.to_multiset().add(b@.to_multiset());
    let mut a = a;
    let mut b = b;
    let mut done: Vec<T> = Vec::with_capacity(a.len());
    proof {
        assert(done@.reverse() =~= Seq::empty());
        assert(done@.to_multiset().add(a@.to_multiset()).add(b@.to_multiset()) =~= total) by {
            done@.to_multiset_ensures();
            assert(done@.to_multiset() =~= vstd::multiset::Multiset::empty());
        }
    }
    while a.len() > 0 || b.len() > 0
        invariant
            sorted(a@),
            sorted(b@),
            merged(done@, a@, b@),
            done@.to_multiset().add(a@.to_multiset()).add(b@.to_multiset()) == total,
        decreases a@.len() + b@.len(),
    {
        let from_a = b.len() == 0 || (a.len() > 0 && b[b.len() - 1].is_at_most(&a[a.len() - 1]));
        let ghost (d0, a0, b0) = (done@, a@, b@);
        if from_a {
            if let Some(x) = a.pop() {
                proof {
                    lemma_merge_step(d0, a0, b0);
                    lemma_merge_count(d0, a0, b0);
                    assert(a@ =~= a0.drop_last());
                }
                done.push(x);
            }
        } else {
            if let Some(x) = b.pop() {
                proof {
                    if a0.len() > 0 {
                        T::at_most_is_total(a0.last(), b0.last());
                    }
                    assert(merged(d0, b0, a0)) by {
                        assert forall|k: int| 0 <= k < d0.len() implies bounded(b0, #[trigger] d0[k]) && bounded(
                            a0,
                            d0[k],
                        ) by {}
                    }
                    lemma_merge_step(d0, b0, a0);
                    lemma_merge_count(d0, b0, a0);
                    assert(b@ =~= b0.drop_last());
                    let d1 = d0.push(x);
                    assert(merged(d1, a0, b@)) by {
                        assert forall|k: int| 0 <= k < d1.len() implies bounded(a0, #[trigger] d1[k]) && bounded(
                            b@,
                            d1[k],
                        ) by {}
                    }
                    assert(d1.to_multiset().add(a0.to_multiset()).add(b@.to_multiset()) =~= d1.to_multiset().add(
                        b@.to_multiset(),
                    ).add(a0.to_multiset()));
                    assert(d0.to_multiset().add(b0.to_multiset()).add(a0.to_multiset()) =~= total);
                }
                done.push(x);
            }
        }
    }
    proof {
        a@.to_multiset_ensures();
        b@.to_multiset_ensures();
        assert(a@.to_multiset() =~= vstd::multiset::Multiset::empty());
        assert(b@.to_multiset() =~= vstd::multiset::Multiset::empty());
        lemma_reverse_multiset(done@);
        assert(done@.to_multiset() =~= total);
    }
    reverse(done)
}

/// Sort a vector.
pub fn merge_sort<T: Ranked>(v: Vec<T>) -> (out: Vec<T>)
    ensures
        sorted(out@),
        out@.to_multiset() == v@.to_multiset(),
    decreases v@.len(),
{
    if v.len() <= 1 {
        return v;
    }
    let mut low = v;
    let mid: usize = low.len() / 2;
    let high = low.split_off(mid);
    proof {
        assert(v@ =~= low@ + high@);
        vstd::seq_lib::lemma_multiset_commutative(low@, high@);
    }
    merge(merge_sort(low), merge_sort(high))
}

impl Ranked for u32 {
    open spec fn at_most(self, other: u32) -> bool {
        self <= other
    }

    proof fn at_most_is_total(a: u32, b: u32) {
    }

    proof fn at_most_is_transitive(a: u32, b: u32, c: u32) {
    }

    fn is_at_most(&self, other: &u32) -> (out: bool) {
        *self <= *other
    }
}

} // verus!
