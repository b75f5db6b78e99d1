//! Crossover operators: order crossover for permutations and single-point
//! crossover for binary strings.
use vstd::prelude::*;
use std::collections::HashSet;
use crate::operator::Operator;
use crate::permutation::{is_permutation_of, lemma_permutation_keeps_distinct, lemma_permutation_symmetric_transitive};
use crate::solution::{Solution, is_clone_of};

verus! {

broadcast use vstd::std_specs::hash::group_hash_axioms;

/// `x` reduced once modulo `n`, for `0 <= x < 2 * n`.
pub open spec fn wrap_index(x: int, n: int) -> int {
    if x >= n { x - n } else { x }
}

/// How many steps after `end`, cyclically modulo `n`, position `pos` lies.
pub open spec fn offset_after(pos: int, end: int, n: int) -> int {
    if pos >= end { pos - end } else { pos + n - end }
}

/// The first `n` values of `s` read cyclically, starting at position `from`.
pub open spec fn rotation_from(s: Seq<usize>, from: int, n: int) -> Seq<usize> {
    Seq::new(n as nat, |o: int| s[wrap_index(from + o, n)])
}

/// Genes of `p2`, read cyclically from `end`, that are not in the slice
/// `p1[start..end]`, in the order they are met.
pub open spec fn order_fill(p1: Seq<usize>, p2: Seq<usize>, start: int, end: int, n: int) -> Seq<usize> {
    rotation_from(p2, end, n).filter(|g: usize| !p1.subrange(start, end).contains(g))
}

/// The child that order crossover builds from `p1` and `p2` over the first `n`
/// positions, with the slice `[start, end)` taken from `p1`.
///
/// The fill genes are written cyclically from position `end`; a position that
/// no fill gene reaches keeps the slice gene of `p1` inside the slice and the
/// marker `usize::MAX` outside it.
pub open spec fn order_child(p1: Seq<usize>, p2: Seq<usize>, start: int, end: int, n: int) -> Seq<usize> {
    let fill = order_fill(p1, p2, start, end, n);
    Seq::new(
        n as nat,
        |pos: int|
            {
                let d = offset_after(pos, end, n);
                if d < fill.len() {
                    fill[d]
                } else if start <= pos < end {
                    p1[pos]
                } else {
                    usize::MAX
                }
            },
    )
}

/// Order crossover (OX) for permutation solutions.
pub struct OrderCrossover {
    offspring_count: usize,
}

impl OrderCrossover {
    /// An order crossover that produces two offspring.
    pub fn new() -> (r: Self)
        ensures
            r.spec_offspring_count() == 2,
    {
        OrderCrossover { offspring_count: 2 }
    }

    /// An order crossover that produces one offspring.
    pub fn with_one_offspring() -> (r: Self)
        ensures
            r.spec_offspring_count() == 1,
    {
        OrderCrossover { offspring_count: 1 }
    }

    /// Number of offspring per crossover.
    pub closed spec fn spec_offspring_count(&self) -> usize {
        self.offspring_count
    }

    /// Number of offspring per crossover.
    pub fn number_of_offspring(&self) -> (n: usize)
        ensures
            n == self.spec_offspring_count(),
    {
        self.offspring_count
    }

    fn build_child<Q>(parent1: &Solution<usize, Q>, parent2: &Solution<usize, Q>, start: usize, end: usize) -> (child: Solution<usize, Q>)
        requires
            start < end,
            end <= parent1.spec_variables().len(),
            end <= parent2.spec_variables().len(),
        ensures
            child.spec_quality() is None,
            child.spec_variables() == order_child(
                parent1.spec_variables(),
                parent2.spec_variables(),
                start as int,
                end as int,
                if parent1.spec_variables().len() <= parent2.spec_variables().len() {
                    parent1.spec_variables().len() as int
                } else {
                    parent2.spec_variables().len() as int
                },
            ),
    {
        let p1 = parent1.variables();
        let p2 = parent2.variables();
        let length = if p1.len() <= p2.len() { p1.len() } else { p2.len() };
        let ghost n = length as int;
        let ghost slice = p1@.subrange(start as int, end as int);
        let ghost pred = |g: usize| !slice.contains(g);
        let ghost rot = rotation_from(p2@, end as int, n);

        let mut child: Vec<usize> = Vec::with_capacity(length);
        let mut k: usize = 0;
        while k < length
            invariant
                k <= length,
                child@ == Seq::new(k as nat, |pos: int| usize::MAX),
            decreases length - k,
        {
            child.push(usize::MAX);
            k = k + 1;
        }
        let mut used: HashSet<usize> = HashSet::with_capacity(length);
        let mut index = start;
        while index < end
            invariant
                start <= index <= end,
                end <= length,
                length == p1@.len() || length == p2@.len(),
                length <= p1@.len(),
                child@ == Seq::new(
                    length as nat,
                    |pos: int| if start <= pos < index { p1@[pos] } else { usize::MAX },
                ),
                forall|g: usize| used@.contains(g) <==> p1@.subrange(start as int, index as int).contains(g),
            decreases end - index,
        {
            let gene = p1[index];
            child.set(index, gene);
            used.insert(gene);
            proof {
                let sub0 = p1@.subrange(start as int, index as int);
                let sub1 = p1@.subrange(start as int, index + 1);
                assert(sub1 =~= sub0.push(gene));
                assert forall|g: usize| used@.contains(g) <==> sub1.contains(g) by {
                    if sub0.contains(g) {
                        let j = choose|j: int| 0 <= j < sub0.len() && #[trigger] sub0[j] == g;
                        assert(sub1[j] == g);
                    }
                    if sub1.contains(g) && g != gene {
                        let j = choose|j: int| 0 <= j < sub1.len() && #[trigger] sub1[j] == g;
                        assert(sub0[j] == g);
                    }
                    if g == gene {
                        assert(sub1[sub0.len() as int] == g);
                    }
                }
                assert(child@ =~= Seq::new(
                    length as nat,
                    |pos: int| if start <= pos < index + 1 { p1@[pos] } else { usize::MAX },
                ));
            }
            index = index + 1;
        }
        assert(p1@.subrange(start as int, end as int) == slice);

        let mut insertion_index: usize = if end == length { 0 } else { end };
        let mut offset: usize = 0;
        assert(rot.take(0).filter(pred) =~= Seq::<usize>::empty()) by {
            reveal(Seq::filter);
        }
        while offset < length
            invariant
                start < end <= length,
                length == p1@.len() || length == p2@.len(),
                length <= p1@.len(),
                length <= p2@.len(),
                n == length,
                slice == p1@.subrange(start as int, end as int),
                rot == rotation_from(p2@, end as int, n),
                pred == (|g: usize| !slice.contains(g)),
                offset <= length,
                forall|g: usize| used@.contains(g) <==> slice.contains(g),
                insertion_index < length,
                rot.take(offset as int).filter(pred).len() <= offset,
                rot.take(offset as int).filter(pred).len() < length ==> insertion_index == wrap_index(
                    end + rot.take(offset as int).filter(pred).len(),
                    n,
                ),
                child@ == Seq::new(
                    length as nat,
                    |pos: int|
                        {
                            let fo = rot.take(offset as int).filter(pred);
                            let d = offset_after(pos, end as int, n);
                            if d < fo.len() {
                                fo[d]
                            } else if start <= pos < end {
                                p1@[pos]
                            } else {
                                usize::MAX
                            }
                        },
                ),
            decreases length - offset,
        {
            let ghost fo = rot.take(offset as int).filter(pred);
            let parent_index = if offset < length - end { end + offset } else { offset - (length - end) };
            let gene = p2[parent_index];
            assert(rot[offset as int] == gene);
            assert(rot.take(offset + 1) =~= rot.take(offset as int).push(gene));
            proof { rot.take(offset as int).lemma_filter_push(gene, pred); }
            if used.contains(&gene) {
                assert(!pred(gene));
                assert(rot.take(offset + 1).filter(pred) == fo);
            } else {
                assert(pred(gene));
                let ghost fo2 = fo.push(gene);
                assert(rot.take(offset + 1).filter(pred) == fo2);
                let ghost at = insertion_index as int;
                assert(offset_after(at, end as int, n) == fo.len());
                child.set(insertion_index, gene);
                insertion_index = if insertion_index + 1 == length { 0 } else { insertion_index + 1 };
                assert forall|pos: int| 0 <= pos < length && pos != at implies offset_after(pos, end as int, n) != fo.len() by {}
            }
            offset = offset + 1;
            assert(child@ =~= Seq::new(
                length as nat,
                |pos: int|
                    {
                        let fo3 = rot.take(offset as int).filter(pred);
                        let d = offset_after(pos, end as int, n);
                        if d < fo3.len() {
                            fo3[d]
                        } else if start <= pos < end {
                            p1@[pos]
                        } else {
                            usize::MAX
                        }
                    },
            ));
        }
        assert(rot.take(n) =~= rot);
        assert(child@ =~= order_child(p1@, p2@, start as int, end as int, n));
        Solution::new(child)
    }
}


/// Cut points that order crossover can draw for parents of common length
/// `length`: `start` in `[0, length - 1)` and `end` in `(start, length]`.
pub open spec fn order_cut_points_admissible(length: int, start: int, end: int) -> bool {
    length > 1 ==> 0 <= start < length - 1 && start < end <= length
}

/// Common length of two parents.
pub open spec fn common_length<T, Q>(a: &Solution<T, Q>, b: &Solution<T, Q>) -> int {
    if a.spec_variables().len() <= b.spec_variables().len() {
        a.spec_variables().len() as int
    } else {
        b.spec_variables().len() as int
    }
}

impl OrderCrossover {
    /// Applies order crossover with the slice `[start, end)`.
    ///
    /// Parents with fewer than two common positions are returned as clones.
    /// Otherwise the first child takes the slice from `parent1` and the
    /// remaining genes in `parent2`'s cyclic order (see [`order_child`]); the
    /// second child, when two are produced, swaps the parents' roles.
    pub fn execute<Q: Clone>(
        &self,
        parent1: &Solution<usize, Q>,
        parent2: &Solution<usize, Q>,
        start: usize,
        end: usize,
    ) -> (offspring: Vec<Solution<usize, Q>>)
        requires
            order_cut_points_admissible(common_length(parent1, parent2), start as int, end as int),
        ensures
            common_length(parent1, parent2) <= 1 ==> {
                &&& offspring.len() == 2
                &&& is_clone_of(*parent1, offspring[0])
                &&& is_clone_of(*parent2, offspring[1])
            },
            common_length(parent1, parent2) > 1 ==> {
                let n = common_length(parent1, parent2);
                &&& offspring.len() == (if self.spec_offspring_count() == 1 { 1int } else { 2int })
                &&& offspring[0].spec_quality() is None
                &&& offspring[0].spec_variables() == order_child(
                    parent1.spec_variables(),
                    parent2.spec_variables(),
                    start as int,
                    end as int,
                    n,
                )
                &&& offspring.len() == 2 ==> offspring[1].spec_quality() is None
                    && offspring[1].spec_variables() == order_child(
                    parent2.spec_variables(),
                    parent1.spec_variables(),
                    start as int,
                    end as int,
                    n,
                )
            },
            common_length(parent1, parent2) > 1 && parent1.spec_variables().len() == parent2.spec_variables().len()
                && parent1.spec_variables().no_duplicates() && is_permutation_of(
                parent1.spec_variables(),
                parent2.spec_variables(),
            ) ==> {
                &&& is_permutation_of(parent1.spec_variables(), offspring[0].spec_variables())
                &&& offspring.len() == 2 ==> is_permutation_of(parent2.spec_variables(), offspring[1].spec_variables())
            },
    {
        let length = if parent1.num_variables() <= parent2.num_variables() {
            parent1.num_variables()
        } else {
            parent2.num_variables()
        };
        if length <= 1 {
            let mut offspring = Vec::new();
            offspring.push(parent1.clone());
            offspring.push(parent2.clone());
            return offspring;
        }
        proof {
            let p1 = parent1.spec_variables();
            let p2 = parent2.spec_variables();
            if p1.len() == p2.len() && p1.no_duplicates() && is_permutation_of(p1, p2) {
                lemma_order_child_is_permutation(p1, p2, start as int, end as int);
                lemma_permutation_symmetric_transitive(p1, p2, p1);
                lemma_permutation_keeps_distinct(p1, p2);
                lemma_order_child_is_permutation(p2, p1, start as int, end as int);
            }
        }
        let child1 = Self::build_child(parent1, parent2, start, end);
        let mut offspring = Vec::new();
        offspring.push(child1);
        if self.offspring_count == 1 {
            return offspring;
        }
        let child2 = Self::build_child(parent2, parent1, start, end);
        proof {
            assert(common_length(parent2, parent1) == common_length(parent1, parent2));
        }
        offspring.push(child2);
        offspring
    }
}

impl Operator for OrderCrossover {
    fn name(&self) -> (r: &str)
        ensures
            r@ == "OrderCrossover"@,
    {
        "OrderCrossover"
    }
}

impl Default for OrderCrossover {
    fn default() -> (r: Self)
        ensures
            r.spec_offspring_count() == 2,
    {
        Self::new()
    }
}

/// Order crossover of two permutations of the same values, with no value
/// repeated, gives a permutation of them that keeps the slice of the first
/// parent in place.
pub proof fn lemma_order_child_is_permutation(p1: Seq<usize>, p2: Seq<usize>, start: int, end: int)
    requires
        p1.len() == p2.len(),
        0 <= start < end <= p1.len(),
        p1.no_duplicates(),
        is_permutation_of(p1, p2),
    ensures
        is_permutation_of(p1, order_child(p1, p2, start, end, p1.len() as int)),
        order_child(p1, p2, start, end, p1.len() as int).subrange(start, end) == p1.subrange(start, end),
{
    broadcast use vstd::seq_lib::group_filter_ensures;
    broadcast use vstd::set::group_set_axioms;
    broadcast use vstd::seq_lib::seq_to_set_is_finite;

    let n = p1.len() as int;
    let slice = p1.subrange(start, end);
    let pred = |g: usize| !slice.contains(g);
    let rot = rotation_from(p2, end, n);
    let fill = rot.filter(pred);
    let child = order_child(p1, p2, start, end, n);
    assert(fill == order_fill(p1, p2, start, end, n));
    crate::permutation::lemma_permutation_same_values(p1, p2);
    crate::permutation::lemma_permutation_keeps_distinct(p1, p2);

    assert(rot.no_duplicates()) by {
        assert forall|i: int, j: int| 0 <= i < rot.len() && 0 <= j < rot.len() && i != j implies rot[i] != rot[j] by {
            assert(wrap_index(end + i, n) != wrap_index(end + j, n));
        }
    }
    assert forall|x: usize| rot.contains(x) <==> p2.contains(x) by {
        if p2.contains(x) {
            let i = choose|i: int| 0 <= i < p2.len() && p2[i] == x;
            let o = offset_after(i, end, n);
            assert(rot[o] == x);
        }
    }
    crate::permutation::lemma_filter_keeps_distinct(rot, pred);
    assert forall|x: usize| fill.contains(x) <==> (p1.contains(x) && !slice.contains(x)) by {
        if fill.contains(x) {
            rot.lemma_filter_contains_rev(pred, x);
            let k = choose|k: int| 0 <= k < fill.len() && fill[k] == x;
            assert(pred(fill[k]));
        }
        if p1.contains(x) && !slice.contains(x) {
            let i = choose|i: int| 0 <= i < rot.len() && rot[i] == x;
            assert(pred(rot[i]));
        }
    }
    assert(slice.no_duplicates());
    // counting: fill and the slice split the values of p1
    fill.unique_seq_to_set();
    slice.unique_seq_to_set();
    p1.unique_seq_to_set();
    assert(fill.to_set().disjoint(slice.to_set()));
    assert(fill.to_set() + slice.to_set() =~= p1.to_set()) by {
        assert forall|x: usize| p1.to_set().contains(x) implies (fill.to_set() + slice.to_set()).contains(x) by {}
        assert forall|x: usize| (fill.to_set() + slice.to_set()).contains(x) implies p1.to_set().contains(x) by {
            if slice.contains(x) {
                let j = choose|j: int| 0 <= j < slice.len() && slice[j] == x;
                assert(p1[start + j] == x);
            }
        }
    }
    vstd::set_lib::lemma_set_disjoint_lens(fill.to_set(), slice.to_set());
    assert(fill.len() == n - (end - start));

    // shape of the child
    assert forall|pos: int| 0 <= pos < n implies #[trigger] child[pos] == (if start <= pos < end {
        p1[pos]
    } else {
        fill[offset_after(pos, end, n)]
    }) by {}
    assert(child.no_duplicates()) by {
        assert forall|i: int, j: int| 0 <= i < n && 0 <= j < n && i != j implies child[i] != child[j] by {
            if start <= i < end && start <= j < end {
            } else if start <= i < end {
                assert(fill.contains(child[j]));
                assert(slice[i - start] == child[i]);
            } else if start <= j < end {
                assert(fill.contains(child[i]));
                assert(slice[j - start] == child[j]);
            } else {
                assert(offset_after(i, end, n) != offset_after(j, end, n));
            }
        }
    }
    assert forall|x: usize| p1.contains(x) <==> child.contains(x) by {
        if p1.contains(x) {
            if slice.contains(x) {
                let j = choose|j: int| 0 <= j < slice.len() && slice[j] == x;
                assert(child[start + j] == x);
            } else {
                let k = choose|k: int| 0 <= k < fill.len() && fill[k] == x;
                let pos = wrap_index(end + k, n);
                assert(offset_after(pos, end, n) == k);
                assert(child[pos] == x);
            }
        }
        if child.contains(x) {
            let i = choose|i: int| 0 <= i < child.len() && child[i] == x;
            if !(start <= i < end) {
                assert(fill.contains(fill[offset_after(i, end, n)]));
            }
        }
    }
    crate::permutation::lemma_distinct_same_values_is_permutation(p1, child);
    assert(child.subrange(start, end) =~= slice);
}

/// Child of single-point crossover: the genes of `own`, with positions in
/// `[point, length)` taken from `other`.
pub open spec fn single_point_child(own: Seq<bool>, other: Seq<bool>, point: int, length: int) -> Seq<bool> {
    Seq::new(own.len(), |i: int| if point <= i < length { other[i] } else { own[i] })
}

/// Crossover points that single-point crossover can draw for parents of
/// common length `length`: a point in `[1, length)`.
pub open spec fn crossover_point_admissible(length: int, point: int) -> bool {
    length > 1 ==> 1 <= point < length
}

/// Single-point crossover for binary solutions: the segments after the
/// crossover point are exchanged between the parents.
pub struct SinglePointCrossover {
    offspring_count: usize,
}

impl SinglePointCrossover {
    /// A single-point crossover that produces two offspring.
    pub fn new() -> (r: Self)
        ensures
            r.spec_offspring_count() == 2,
    {
        SinglePointCrossover { offspring_count: 2 }
    }

    /// A single-point crossover that produces one offspring.
    pub fn with_one_offspring() -> (r: Self)
        ensures
            r.spec_offspring_count() == 1,
    {
        SinglePointCrossover { offspring_count: 1 }
    }

    /// Number of offspring per crossover.
    pub closed spec fn spec_offspring_count(&self) -> usize {
        self.offspring_count
    }

    /// Number of offspring per crossover.
    pub fn number_of_offspring(&self) -> (n: usize)
        ensures
            n == self.spec_offspring_count(),
    {
        self.offspring_count
    }

    fn cross(own: &[bool], other: &[bool], point: usize, length: usize) -> (child: Vec<bool>)
        requires
            length <= own@.len(),
            length <= other@.len(),
        ensures
            child@ == single_point_child(own@, other@, point as int, length as int),
    {
        let mut child: Vec<bool> = Vec::with_capacity(own.len());
        let mut i: usize = 0;
        while i < own.len()
            invariant
                i <= own@.len(),
                length <= own@.len(),
                length <= other@.len(),
                child@ =~= single_point_child(own@, other@, point as int, length as int).take(i as int),
            decreases own@.len() - i,
        {
            if point <= i && i < length {
                child.push(other[i]);
            } else {
                child.push(own[i]);
            }
            i = i + 1;
        }
        child
    }

    /// Applies single-point crossover at `point`.
    ///
    /// Parents with fewer than two common positions are returned as clones.
    /// Otherwise each child keeps its own parent's length and takes the other
    /// parent's genes at the common positions from `point` on; its quality is
    /// cleared.
    pub fn execute<Q: Clone>(
        &self,
        parent1: &Solution<bool, Q>,
        parent2: &Solution<bool, Q>,
        point: usize,
    ) -> (offspring: Vec<Solution<bool, Q>>)
        requires
            crossover_point_admissible(common_length(parent1, parent2), point as int),
        ensures
            common_length(parent1, parent2) <= 1 ==> {
                &&& offspring.len() == 2
                &&& is_clone_of(*parent1, offspring[0])
                &&& is_clone_of(*parent2, offspring[1])
            },
            common_length(parent1, parent2) > 1 ==> {
                let n = common_length(parent1, parent2);
                &&& offspring.len() == (if self.spec_offspring_count() == 1 { 1int } else { 2int })
                &&& offspring[0].spec_quality() is None
                &&& offspring[0].spec_variables() == single_point_child(
                    parent1.spec_variables(),
                    parent2.spec_variables(),
                    point as int,
                    n,
                )
                &&& offspring.len() == 2 ==> offspring[1].spec_quality() is None
                    && offspring[1].spec_variables() == single_point_child(
                    parent2.spec_variables(),
                    parent1.spec_variables(),
                    point as int,
                    n,
                )
            },
    {
        let length = if parent1.num_variables() <= parent2.num_variables() {
            parent1.num_variables()
        } else {
            parent2.num_variables()
        };
        if length <= 1 {
            let mut offspring = Vec::new();
            offspring.push(parent1.clone());
            offspring.push(parent2.clone());
            return offspring;
        }
        let v1 = parent1.variables();
        let v2 = parent2.variables();
        let child1 = Self::cross(v1, v2, point, length);
        let child2 = Self::cross(v2, v1, point, length);
        let mut offspring = Vec::new();
        offspring.push(Solution::new(child1));
        if self.offspring_count != 1 {
            offspring.push(Solution::new(child2));
        }
        offspring
    }
}

impl Operator for SinglePointCrossover {
    fn name(&self) -> (r: &str)
        ensures
            r@ == "SinglePointCrossover"@,
    {
        "SinglePointCrossover"
    }
}

impl Default for SinglePointCrossover {
    fn default() -> (r: Self)
        ensures
            r.spec_offspring_count() == 2,
    {
        Self::new()
    }
}

/// Default multi-parent crossover: the offspring are clones of every parent
/// but the first, in order.
pub fn execute_several<T: Clone, Q: Clone>(parents: &Vec<Solution<T, Q>>) -> (offspring: Vec<Solution<T, Q>>)
    ensures
        parents.len() == 0 ==> offspring.len() == 0,
        parents.len() > 0 ==> offspring.len() == parents.len() - 1,
        forall|i: int| 0 <= i < offspring.len() ==> i + 1 < parents.len() && is_clone_of(parents[i + 1], #[trigger] offspring[i]),
{
    let mut offspring: Vec<Solution<T, Q>> = Vec::new();
    let mut i: usize = 1;
    while i < parents.len()
        invariant
            1 <= i,
            parents.len() > 0 ==> i <= parents.len(),
            parents.len() == 0 ==> i == 1,
            offspring.len() == i - 1,
            forall|k: int| 0 <= k < offspring.len() ==> is_clone_of(parents[k + 1], #[trigger] offspring[k]),
        decreases parents.len() - i,
    {
        offspring.push(parents[i].clone());
        i = i + 1;
    }
    offspring
}
} // verus!
