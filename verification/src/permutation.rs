//! Permutations of decision vectors: what it means for one sequence to be a
//! rearrangement of another, and the facts about swaps, segment reversals and
//! single-element moves that the permutation operators rely on.
use vstd::prelude::*;

verus! {

broadcast use vstd::seq_lib::group_to_multiset_ensures;

/// `b` holds the same values as `a`, each as many times.
pub open spec fn is_permutation_of<A>(a: Seq<A>, b: Seq<A>) -> bool {
    a.to_multiset() == b.to_multiset()
}

/// `s` is a permutation of `0, 1, ..., n - 1`.
pub open spec fn is_index_permutation(s: Seq<usize>, n: nat) -> bool {
    &&& s.len() == n
    &&& s.no_duplicates()
    &&& forall|i: int| 0 <= i < s.len() ==> #[trigger] s[i] < n
}

/// `s` with the values at `i` and `j` exchanged.
pub open spec fn swapped<A>(s: Seq<A>, i: int, j: int) -> Seq<A> {
    s.update(i, s[j]).update(j, s[i])
}

/// `s` with the segment `[lo, hi)` reversed.
pub open spec fn reversed_segment<A>(s: Seq<A>, lo: int, hi: int) -> Seq<A> {
    s.subrange(0, lo) + s.subrange(lo, hi).reverse() + s.subrange(hi, s.len() as int)
}

/// `s` with the element at `from` taken out and put back at position `to`.
pub open spec fn moved<A>(s: Seq<A>, from: int, to: int) -> Seq<A> {
    s.remove(from).insert(to, s[from])
}

/// Two sequences without repeated values that contain the same values are
/// permutations of each other.
pub proof fn lemma_distinct_same_values_is_permutation<A>(a: Seq<A>, b: Seq<A>)
    requires
        a.no_duplicates(),
        b.no_duplicates(),
        forall|x: A| a.contains(x) <==> b.contains(x),
    ensures
        is_permutation_of(a, b),
{
    a.lemma_multiset_has_no_duplicates();
    b.lemma_multiset_has_no_duplicates();
    assert forall|x: A| a.to_multiset().count(x) == b.to_multiset().count(x) by {
        vstd::seq_lib::to_multiset_contains(a, x);
        vstd::seq_lib::to_multiset_contains(b, x);
    }
    assert(a.to_multiset() =~= b.to_multiset());
}

/// Permutations have the same length and contain the same values.
pub proof fn lemma_permutation_same_values<A>(a: Seq<A>, b: Seq<A>)
    requires
        is_permutation_of(a, b),
    ensures
        a.len() == b.len(),
        forall|x: A| a.contains(x) <==> b.contains(x),
{
    a.to_multiset_ensures();
    b.to_multiset_ensures();
    assert forall|x: A| a.contains(x) <==> b.contains(x) by {
        vstd::seq_lib::to_multiset_contains(a, x);
        vstd::seq_lib::to_multiset_contains(b, x);
    }
}

/// A permutation of a sequence without repeated values has none either.
pub proof fn lemma_permutation_keeps_distinct<A>(a: Seq<A>, b: Seq<A>)
    requires
        is_permutation_of(a, b),
        a.no_duplicates(),
    ensures
        b.no_duplicates(),
{
    a.lemma_multiset_has_no_duplicates();
    b.lemma_multiset_has_no_duplicates_conv();
}

/// Swapping two positions rearranges a sequence.
pub proof fn lemma_swap_is_permutation<A>(s: Seq<A>, i: int, j: int)
    requires
        0 <= i < s.len(),
        0 <= j < s.len(),
    ensures
        is_permutation_of(s, swapped(s, i, j)),
{
    broadcast use vstd::multiset::group_multiset_axioms;

    let s1 = s.update(i, s[j]);
    vstd::seq_lib::to_multiset_update(s, i, s[j]);
    vstd::seq_lib::to_multiset_update(s1, j, s[i]);
    vstd::seq_lib::to_multiset_contains(s, s[j]);
    vstd::seq_lib::to_multiset_contains(s, s[i]);
    if i == j {
        assert(swapped(s, i, j) =~= s);
    } else {
        assert(s1[j] == s[j]);
        assert(swapped(s, i, j).to_multiset() =~= s.to_multiset());
    }
}

/// Reversing a segment rearranges a sequence.
pub proof fn lemma_reverse_segment_is_permutation<A>(s: Seq<A>, lo: int, hi: int)
    requires
        0 <= lo <= hi <= s.len(),
    ensures
        is_permutation_of(s, reversed_segment(s, lo, hi)),
{
    let a = s.subrange(0, lo);
    let b = s.subrange(lo, hi);
    let c = s.subrange(hi, s.len() as int);
    assert(s =~= a + b + c);
    b.lemma_reverse_to_multiset();
    vstd::seq_lib::lemma_multiset_commutative(a + b, c);
    vstd::seq_lib::lemma_multiset_commutative(a, b);
    vstd::seq_lib::lemma_multiset_commutative(a + b.reverse(), c);
    vstd::seq_lib::lemma_multiset_commutative(a, b.reverse());
}

/// Moving one element to another position rearranges a sequence.
pub proof fn lemma_move_is_permutation<A>(s: Seq<A>, from: int, to: int)
    requires
        0 <= from < s.len(),
        0 <= to < s.len(),
    ensures
        is_permutation_of(s, moved(s, from, to)),
{
    broadcast use vstd::multiset::group_multiset_axioms;

    vstd::seq_lib::to_multiset_remove(s, from);
    vstd::seq_lib::to_multiset_insert(s.remove(from), to, s[from]);
    vstd::seq_lib::to_multiset_contains(s, s[from]);
    assert(moved(s, from, to).to_multiset() =~= s.to_multiset());
}

/// Rearranging is symmetric and transitive.
pub proof fn lemma_permutation_symmetric_transitive<A>(a: Seq<A>, b: Seq<A>, c: Seq<A>)
    ensures
        is_permutation_of(a, b) ==> is_permutation_of(b, a),
        is_permutation_of(a, b) && is_permutation_of(b, c) ==> is_permutation_of(a, c),
{
}


/// A fresh vector with the same values as `v`.
pub fn copy_values<T: Copy>(v: &[T]) -> (r: Vec<T>)
    ensures
        r@ == v@,
{
    let mut r: Vec<T> = Vec::with_capacity(v.len());
    let mut i: usize = 0;
    while i < v.len()
        invariant
            i <= v@.len(),
            r@ == v@.take(i as int),
        decreases v@.len() - i,
    {
        r.push(v[i]);
        i = i + 1;
        assert(r@ =~= v@.take(i as int));
    }
    assert(v@.take(v@.len() as int) =~= v@);
    r
}


/// Reverses the segment `[lo, hi)` of `v` in place.
pub fn reverse_segment<T: Copy>(v: &mut Vec<T>, lo: usize, hi: usize)
    requires
        lo <= hi <= old(v)@.len(),
    ensures
        final(v)@ == reversed_segment(old(v)@, lo as int, hi as int),
{
    let ghost s = v@;
    let mut a = lo;
    let mut b = hi;
    while b - a > 1
        invariant
            lo <= a <= b <= hi,
            hi <= s.len(),
            a - lo == hi - b,
            v@.len() == s.len(),
            forall|k: int| 0 <= k < lo ==> v@[k] == s[k],
            forall|k: int| hi <= k < s.len() ==> v@[k] == s[k],
            forall|k: int| a <= k < b ==> v@[k] == s[k],
            forall|k: int| lo <= k < a ==> v@[k] == s[hi - 1 - (k - lo)],
            forall|k: int| b <= k < hi ==> v@[k] == s[hi - 1 - (k - lo)],
        decreases b - a,
    {
        let x = v[a];
        let y = v[b - 1];
        v.set(a, y);
        v.set(b - 1, x);
        a = a + 1;
        b = b - 1;
    }
    assert(v@ =~= reversed_segment(s, lo as int, hi as int));
}
/// Filtering keeps a sequence free of repeated values.
pub proof fn lemma_filter_keeps_distinct(s: Seq<usize>, pred: spec_fn(usize) -> bool)
    requires
        s.no_duplicates(),
    ensures
        s.filter(pred).no_duplicates(),
    decreases s.len(),
{
    reveal(Seq::filter);
    if s.len() > 0 {
        let t = s.drop_last();
        let last = s.last();
        assert(t.no_duplicates());
        lemma_filter_keeps_distinct(t, pred);
        assert(s =~= t.push(last));
        t.lemma_filter_push(last, pred);
        if pred(last) {
            assert(!t.contains(last));
            if t.filter(pred).contains(last) {
                t.lemma_filter_contains_rev(pred, last);
            }
        }
    }
}

} // verus!
