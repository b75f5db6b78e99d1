//! Neighborhood operators: the moves that local-search algorithms explore
//! around a solution.
use vstd::prelude::*;
use crate::operator::Operator;
use crate::operator::mutation::{distinct_partner, distinct_partner_of};
use crate::permutation::{
    copy_values, is_permutation_of, lemma_move_is_permutation, lemma_permutation_symmetric_transitive,
    lemma_reverse_segment_is_permutation, lemma_swap_is_permutation, moved, reverse_segment, reversed_segment,
    swapped,
};
use crate::solution::{Solution, is_clone_of};

verus! {

/// `bits` with the bit at `i` flipped.
pub open spec fn flip_at(bits: Seq<bool>, i: int) -> Seq<bool> {
    bits.update(i, !bits[i])
}

/// Hamming-distance-1 neighborhood of binary solutions: every neighbor flips
/// exactly one bit.
pub struct BitFlipNeighborhood {}

impl BitFlipNeighborhood {
    /// Creates the operator.
    pub fn new() -> Self {
        BitFlipNeighborhood {}
    }

    /// Number of neighbors: one per bit.
    pub fn neighborhood_size<Q>(&self, solution: &Solution<bool, Q>) -> (r: Option<usize>)
        ensures
            r == Some(solution.spec_variables().len() as usize),
    {
        Some(solution.num_variables())
    }

    /// The neighbor that flips the bit at the drawn position `flip_index`.
    ///
    /// An empty solution has no neighbor and is returned as a clone, with no
    /// draw made.
    pub fn random_neighbor<Q: Clone>(&self, solution: &Solution<bool, Q>, flip_index: usize) -> (r: Solution<bool, Q>)
        requires
            solution.spec_variables().len() > 0 ==> flip_index < solution.spec_variables().len(),
        ensures
            solution.spec_variables().len() == 0 ==> is_clone_of(*solution, r),
            solution.spec_variables().len() > 0 ==> {
                &&& r.spec_variables() == flip_at(solution.spec_variables(), flip_index as int)
                &&& r.spec_quality() is None
                &&& r.spec_variables().len() == solution.spec_variables().len()
                &&& forall|k: int|
                    0 <= k < solution.spec_variables().len() ==> (r.spec_variables()[k]
                        != solution.spec_variables()[k] <==> k == flip_index)
            },
    {
        if solution.num_variables() == 0 {
            return solution.clone();
        }
        let mut variables = copy_values(solution.variables());
        let flipped = !variables[flip_index];
        variables.set(flip_index, flipped);
        Solution::new(variables)
    }

    /// All neighbors, the one flipping bit `i` at index `i`.
    pub fn all_neighbors<Q>(&self, solution: &Solution<bool, Q>) -> (r: Option<Vec<Solution<bool, Q>>>)
        ensures
            r matches Some(neighbors) && neighbors.len() == solution.spec_variables().len() && forall|i: int|
                0 <= i < neighbors.len() ==> {
                    &&& (#[trigger] neighbors[i]).spec_variables() == flip_at(solution.spec_variables(), i)
                    &&& neighbors[i].spec_quality() is None
                },
    {
        let n = solution.num_variables();
        let mut neighbors: Vec<Solution<bool, Q>> = Vec::with_capacity(n);
        let mut i: usize = 0;
        while i < n
            invariant
                i <= n,
                n == solution.spec_variables().len(),
                neighbors.len() == i,
                forall|k: int|
                    0 <= k < i ==> {
                        &&& (#[trigger] neighbors[k]).spec_variables() == flip_at(solution.spec_variables(), k)
                        &&& neighbors[k].spec_quality() is None
                    },
            decreases n - i,
        {
            let mut variables = copy_values(solution.variables());
            let flipped = !variables[i];
            variables.set(i, flipped);
            neighbors.push(Solution::new(variables));
            i = i + 1;
        }
        Some(neighbors)
    }
}

impl Operator for BitFlipNeighborhood {
    fn name(&self) -> (r: &str)
        ensures
            r@ == "BitFlipNeighborhood"@,
    {
        "BitFlipNeighborhood"
    }
}

impl Default for BitFlipNeighborhood {
    fn default() -> Self {
        Self::new()
    }
}

/// Insertion neighborhood of permutation solutions: one element is taken out
/// and reinserted at another position, shifting the elements in between.
pub struct InsertionNeighborhood {}

impl InsertionNeighborhood {
    /// Creates the operator.
    pub fn new() -> Self {
        InsertionNeighborhood {}
    }

    /// Number of neighbors: each of the `n` elements can go to `n - 1` other
    /// positions; none when `n < 2`.
    pub fn neighborhood_size<Q>(&self, solution: &Solution<usize, Q>) -> (r: Option<usize>)
        requires
            solution.spec_variables().len() * (solution.spec_variables().len() - 1) <= usize::MAX,
        ensures
            solution.spec_variables().len() < 2 ==> r == Some(0usize),
            solution.spec_variables().len() >= 2 ==> r == Some(
                (solution.spec_variables().len() * (solution.spec_variables().len() - 1)) as usize,
            ),
    {
        let n = solution.num_variables();
        if n < 2 {
            return Some(0);
        }
        Some(n * (n - 1))
    }

    /// The neighbor that moves the element at the drawn position `from` to
    /// the drawn position `to` (replaced by its [`distinct_partner`]).
    ///
    /// Solutions with fewer than two variables are returned as clones, with no
    /// draw made.
    pub fn random_neighbor<Q: Clone>(&self, solution: &Solution<usize, Q>, from: usize, to: usize) -> (r: Solution<usize, Q>)
        requires
            solution.spec_variables().len() >= 2 ==> from < solution.spec_variables().len() && to
                < solution.spec_variables().len(),
        ensures
            solution.spec_variables().len() < 2 ==> is_clone_of(*solution, r),
            solution.spec_variables().len() >= 2 ==> {
                let n = solution.spec_variables().len() as int;
                &&& r.spec_variables() == moved(
                    solution.spec_variables(),
                    from as int,
                    distinct_partner(from as int, to as int, n),
                )
                &&& r.spec_quality() is None
                &&& is_permutation_of(solution.spec_variables(), r.spec_variables())
                &&& solution.spec_variables().no_duplicates() ==> r.spec_variables() != solution.spec_variables()
            },
    {
        let n = solution.num_variables();
        if n < 2 {
            return solution.clone();
        }
        let to = distinct_partner_of(from, to, n);
        let mut variables = copy_values(solution.variables());
        let ghost s = variables@;
        let element = variables[from];
        if from < to {
            let mut i = from;
            while i < to
                invariant
                    from <= i <= to,
                    to < n,
                    variables@.len() == n,
                    s.len() == n,
                    forall|k: int| 0 <= k < from ==> variables@[k] == s[k],
                    forall|k: int| from <= k < i ==> variables@[k] == s[k + 1],
                    forall|k: int| i <= k < n ==> variables@[k] == s[k],
                decreases to - i,
            {
                let next = variables[i + 1];
                variables.set(i, next);
                i = i + 1;
            }
        } else {
            let mut i = from;
            while i > to
                invariant
                    to <= i <= from,
                    from < n,
                    variables@.len() == n,
                    s.len() == n,
                    forall|k: int| 0 <= k <= i ==> variables@[k] == s[k],
                    forall|k: int| i < k <= from ==> variables@[k] == s[k - 1],
                    forall|k: int| from < k < n ==> variables@[k] == s[k],
                decreases i - to,
            {
                let prev = variables[i - 1];
                variables.set(i, prev);
                i = i - 1;
            }
        }
        variables.set(to, element);
        assert(variables@ =~= moved(s, from as int, to as int));
        proof {
            lemma_move_is_permutation(s, from as int, to as int);
            let m = moved(s, from as int, to as int);
            assert(m[to as int] == s[from as int]);
            if s.no_duplicates() {
                assert(m[to as int] != s[to as int]);
            }
        }
        Solution::new(variables)
    }
}

impl Operator for InsertionNeighborhood {
    fn name(&self) -> (r: &str)
        ensures
            r@ == "InsertionNeighborhood"@,
    {
        "InsertionNeighborhood"
    }
}

impl Default for InsertionNeighborhood {
    fn default() -> Self {
        Self::new()
    }
}

/// `s` after applying the drawn swaps in order; each pair `(i, j)` swaps
/// `i` with the [`distinct_partner`] of `j`.
pub open spec fn apply_swaps(s: Seq<usize>, draws: Seq<(usize, usize)>) -> Seq<usize>
    decreases draws.len(),
{
    if draws.len() == 0 {
        s
    } else {
        let prev = apply_swaps(s, draws.drop_last());
        let (i, j) = draws.last();
        swapped(prev, i as int, distinct_partner(i as int, j as int, s.len() as int))
    }
}

/// Applying swaps keeps the length.
pub proof fn lemma_apply_swaps_len(s: Seq<usize>, draws: Seq<(usize, usize)>)
    requires
        forall|k: int| 0 <= k < draws.len() ==> (#[trigger] draws[k]).0 < s.len() && draws[k].1 < s.len(),
    ensures
        apply_swaps(s, draws).len() == s.len(),
    decreases draws.len(),
{
    if draws.len() > 0 {
        lemma_apply_swaps_len(s, draws.drop_last());
    }
}

/// Neighborhood of permutation solutions reached by a fixed number of random
/// swaps.
pub struct PermutationSwapNeighborhood {
    swap_count: usize,
}

impl PermutationSwapNeighborhood {
    /// Creates the operator; the swap count must be positive.
    pub fn new(swap_count: usize) -> (r: Self)
        requires
            swap_count > 0,
        ensures
            r.spec_swap_count() == swap_count,
    {
        PermutationSwapNeighborhood { swap_count }
    }

    /// Number of swaps per neighbor.
    pub closed spec fn spec_swap_count(&self) -> usize {
        self.swap_count
    }

    /// Number of swaps per neighbor.
    pub fn swap_count(&self) -> (r: usize)
        ensures
            r == self.spec_swap_count(),
    {
        self.swap_count
    }

    /// The neighbor reached by the drawn swaps, one pair of positions per
    /// swap.
    ///
    /// Solutions with fewer than two variables are returned as clones, with no
    /// draw made.
    pub fn generate_neighbor<Q: Clone>(&self, solution: &Solution<usize, Q>, draws: &Vec<(usize, usize)>) -> (r: Solution<usize, Q>)
        requires
            solution.spec_variables().len() >= 2 ==> {
                &&& draws.len() == self.spec_swap_count()
                &&& forall|k: int|
                    0 <= k < draws.len() ==> (#[trigger] draws[k]).0 < solution.spec_variables().len()
                        && draws[k].1 < solution.spec_variables().len()
            },
        ensures
            solution.spec_variables().len() < 2 ==> is_clone_of(*solution, r),
            solution.spec_variables().len() >= 2 ==> {
                &&& r.spec_variables() == apply_swaps(solution.spec_variables(), draws@)
                &&& r.spec_quality() is None
                &&& is_permutation_of(solution.spec_variables(), r.spec_variables())
            },
    {
        let n = solution.num_variables();
        if n < 2 {
            return solution.copy();
        }
        let mut neighbor = Solution::new(copy_values(solution.variables()));
        let ghost s = solution.spec_variables();
        let mut k: usize = 0;
        while k < draws.len()
            invariant
                k <= draws.len(),
                n == s.len(),
                n >= 2,
                forall|m: int| 0 <= m < draws.len() ==> (#[trigger] draws[m]).0 < n && draws[m].1 < n,
                neighbor.spec_variables() == apply_swaps(s, draws@.take(k as int)),
                neighbor.spec_quality() is None,
                is_permutation_of(s, neighbor.spec_variables()),
            decreases draws.len() - k,
        {
            proof {
                lemma_apply_swaps_len(s, draws@.take(k as int));
            }
            let (i, j) = draws[k];
            let j = distinct_partner_of(i, j, n);
            proof {
                let cur = neighbor.spec_variables();
                lemma_swap_is_permutation(cur, i as int, j as int);
                lemma_permutation_symmetric_transitive(s, cur, swapped(cur, i as int, j as int));
            }
            let _ = neighbor.swap_variables(i, j);
            proof {
                assert(draws@.take(k + 1).drop_last() =~= draws@.take(k as int));
            }
            k = k + 1;
        }
        assert(draws@.take(draws.len() as int) =~= draws@);
        neighbor
    }
}

impl Operator for PermutationSwapNeighborhood {
    fn name(&self) -> (r: &str)
        ensures
            r@ == "PermutationSwapNeighborhood"@,
    {
        "PermutationSwapNeighborhood"
    }
}


/// Positions `(lo, hi)` of a 2-opt move built from the draws `i` and `j`:
/// ordered, and pushed at least two apart (clamped to the last position).
pub open spec fn two_opt_endpoints(i: int, j: int, n: int) -> (int, int) {
    let a = if i > j { j } else { i };
    let b = if i > j { i } else { j };
    if b - a < 2 {
        let b2 = if a + 2 < n - 1 { a + 2 } else { n - 1 };
        let a2 = if b2 - a < 2 {
            if b2 >= 2 { b2 - 2 } else { 0 }
        } else {
            a
        };
        (a2, b2)
    } else {
        (a, b)
    }
}

/// The endpoints of a 2-opt move drawn on a route of at least three cities
/// lie on the route, in order, at least two apart (so the reversed path has
/// at least two cities); draws already two or more apart are used as they
/// are, smaller first.
pub proof fn lemma_two_opt_endpoints_apart(i: int, j: int, n: int)
    requires
        n >= 3,
        0 <= i < n,
        0 <= j < n,
    ensures
        ({
            let (lo, hi) = two_opt_endpoints(i, j, n);
            &&& 0 <= lo
            &&& lo + 2 <= hi
            &&& hi < n
            &&& (i - j >= 2 || j - i >= 2) ==> lo == (if i < j { i } else { j }) && hi == (if i < j { j } else { i })
        }),
{
}

/// A 2-opt move drawn on a route of at least three distinct cities always
/// changes the route: the city after `lo` becomes the one that was at `hi`.
pub proof fn lemma_two_opt_changes_route(s: Seq<usize>, i: int, j: int)
    requires
        s.len() >= 3,
        s.no_duplicates(),
        0 <= i < s.len(),
        0 <= j < s.len(),
    ensures
        ({
            let (lo, hi) = two_opt_endpoints(i, j, s.len() as int);
            &&& two_opt_move(s, lo, hi)[lo + 1] == s[hi]
            &&& two_opt_move(s, lo, hi) != s
        }),
{
    let n = s.len() as int;
    lemma_two_opt_endpoints_apart(i, j, n);
    let (lo, hi) = two_opt_endpoints(i, j, n);
    let t = two_opt_move(s, lo, hi);
    let mid = s.subrange(lo + 1, hi + 1);
    assert(mid.reverse()[0] == mid[mid.len() - 1]);
    assert((s.subrange(0, lo + 1) + mid.reverse())[lo + 1] == mid.reverse()[0]);
    assert(t[lo + 1] == s[hi]);
    assert(s[lo + 1] != s[hi]);
}

/// `s` after the 2-opt move that reverses the path between `lo + 1` and `hi`.
pub open spec fn two_opt_move(s: Seq<usize>, lo: int, hi: int) -> Seq<usize> {
    reversed_segment(s, lo + 1, hi + 1)
}

/// The 2-opt moves with first position `i`, in the order of their second
/// position `i + 2, ..., n - 1`.
pub open spec fn two_opt_row(s: Seq<usize>, i: int) -> Seq<Seq<usize>> {
    Seq::new((s.len() - i - 2) as nat, |k: int| two_opt_move(s, i, i + 2 + k))
}

/// All 2-opt moves with first position below `m`, row by row.
pub open spec fn two_opt_rows(s: Seq<usize>, m: int) -> Seq<Seq<usize>>
    decreases m,
{
    if m <= 0 {
        Seq::empty()
    } else {
        two_opt_rows(s, m - 1) + two_opt_row(s, m - 1)
    }
}

/// Number of 2-opt moves in the first `m` rows.
proof fn lemma_two_opt_rows_len(s: Seq<usize>, m: int)
    requires
        0 <= m <= s.len() - 2,
    ensures
        2 * two_opt_rows(s, m).len() == m * (2 * s.len() - 3 - m),
    decreases m,
{
    if m > 0 {
        lemma_two_opt_rows_len(s, m - 1);
        let n = s.len() as int;
        assert(two_opt_row(s, m - 1).len() == n - (m - 1) - 2);
        assert(two_opt_rows(s, m).len() == two_opt_rows(s, m - 1).len() + two_opt_row(s, m - 1).len());
        assert(2 * two_opt_rows(s, m - 1).len() == (m - 1) * (2 * n - 3 - (m - 1)));
        assert((m - 1) * (2 * n - 3 - (m - 1)) + 2 * (n - (m - 1) - 2) == m * (2 * n - 3 - m)) by (nonlinear_arith);
        assert(2 * two_opt_rows(s, m).len() == m * (2 * n - 3 - m));
    } else {
        assert(m == 0);
        assert(two_opt_rows(s, m).len() == 0);
    }
}

/// 2-opt neighborhood of permutation solutions: reverse the path segment
/// between two positions at least two apart.
pub struct TwoOptNeighborhood {}

impl TwoOptNeighborhood {
    /// Creates the operator.
    pub fn new() -> Self {
        TwoOptNeighborhood {}
    }

    /// Number of distinct 2-opt moves, `(n - 1)(n - 2) / 2`; none when
    /// `n < 3`.
    pub fn neighborhood_size<Q>(&self, solution: &Solution<usize, Q>) -> (r: Option<usize>)
        requires
            (solution.spec_variables().len() - 1) * (solution.spec_variables().len() - 2) <= usize::MAX,
        ensures
            solution.spec_variables().len() < 3 ==> r == Some(0usize),
            solution.spec_variables().len() >= 3 ==> r == Some(
                ((solution.spec_variables().len() - 1) * (solution.spec_variables().len() - 2) / 2) as usize,
            ),
    {
        let n = solution.num_variables();
        if n < 3 {
            return Some(0);
        }
        Some((n - 1) * (n - 2) / 2)
    }

    /// The neighbor for the drawn positions `i` and `j` (see
    /// [`two_opt_endpoints`]).
    ///
    /// Solutions with fewer than three variables are returned as clones, with
    /// no draw made.
    pub fn random_neighbor<Q: Clone>(&self, solution: &Solution<usize, Q>, i: usize, j: usize) -> (r: Solution<usize, Q>)
        requires
            solution.spec_variables().len() >= 3 ==> i < solution.spec_variables().len() && j
                < solution.spec_variables().len(),
        ensures
            solution.spec_variables().len() < 3 ==> is_clone_of(*solution, r),
            solution.spec_variables().len() >= 3 ==> {
                let (lo, hi) = two_opt_endpoints(i as int, j as int, solution.spec_variables().len() as int);
                &&& r.spec_variables() == two_opt_move(solution.spec_variables(), lo, hi)
                &&& r.spec_quality() is None
                &&& is_permutation_of(solution.spec_variables(), r.spec_variables())
                &&& solution.spec_variables().no_duplicates() ==> r.spec_variables() != solution.spec_variables()
            },
    {
        let n = solution.num_variables();
        if n < 3 {
            return solution.clone();
        }
        proof {
            if solution.spec_variables().no_duplicates() {
                lemma_two_opt_changes_route(solution.spec_variables(), i as int, j as int);
            }
        }
        let mut i = i;
        let mut j = j;
        if i > j {
            let t = i;
            i = j;
            j = t;
        }
        if j == i || j - i < 2 {
            j = if i < n - 3 { i + 2 } else { n - 1 };
            if j - i < 2 {
                i = if j >= 2 { j - 2 } else { 0 };
            }
        }
        let mut variables = copy_values(solution.variables());
        proof {
            lemma_reverse_segment_is_permutation(solution.spec_variables(), i + 1, j + 1);
        }
        reverse_segment(&mut variables, i + 1, j + 1);
        Solution::new(variables)
    }

    /// All 2-opt neighbors, ordered by first position and then by second
    /// position; none are listed for solutions of more than 50 variables.
    pub fn all_neighbors<Q>(&self, solution: &Solution<usize, Q>) -> (r: Option<Vec<Solution<usize, Q>>>)
        ensures
            solution.spec_variables().len() < 3 ==> (r matches Some(v) && v.len() == 0),
            solution.spec_variables().len() > 50 ==> r is None,
            3 <= solution.spec_variables().len() <= 50 ==> (r matches Some(v) && {
                let expected = two_opt_rows(solution.spec_variables(), solution.spec_variables().len() - 2);
                &&& v.len() == expected.len()
                &&& forall|k: int|
                    0 <= k < v.len() ==> (#[trigger] v[k]).spec_variables() == expected[k] && v[k].spec_quality() is None
                        && is_permutation_of(solution.spec_variables(), v[k].spec_variables())
            }),
    {
        let n = solution.num_variables();
        if n < 3 {
            return Some(Vec::new());
        }
        if n > 50 {
            return None;
        }
        let ghost s = solution.spec_variables();
        let mut neighbors: Vec<Solution<usize, Q>> = Vec::new();
        let mut i: usize = 0;
        while i < n - 2
            invariant
                3 <= n <= 50,
                n == s.len(),
                s == solution.spec_variables(),
                i <= n - 2,
                neighbors.len() == two_opt_rows(s, i as int).len(),
                forall|k: int|
                    0 <= k < neighbors.len() ==> (#[trigger] neighbors[k]).spec_variables() == two_opt_rows(s, i as int)[k]
                        && neighbors[k].spec_quality() is None && is_permutation_of(s, neighbors[k].spec_variables()),
            decreases n - 2 - i,
        {
            let ghost before = two_opt_rows(s, i as int);
            let ghost base = neighbors.len();
            let mut j = i + 2;
            while j < n
                invariant
                    3 <= n <= 50,
                    n == s.len(),
                    s == solution.spec_variables(),
                    i < n - 2,
                    i + 2 <= j <= n,
                    base == before.len(),
                    before == two_opt_rows(s, i as int),
                    neighbors.len() == base + (j - i - 2),
                    forall|k: int|
                        0 <= k < base ==> (#[trigger] neighbors[k]).spec_variables() == before[k]
                            && neighbors[k].spec_quality() is None,
                    forall|k: int|
                        base <= k < neighbors.len() ==> (#[trigger] neighbors[k]).spec_variables() == two_opt_move(
                            s,
                            i as int,
                            i + 2 + (k - base),
                        ) && neighbors[k].spec_quality() is None,
                    forall|k: int| 0 <= k < neighbors.len() ==> is_permutation_of(s, (#[trigger] neighbors[k]).spec_variables()),
                decreases n - j,
            {
                let mut variables = copy_values(solution.variables());
                proof {
                    lemma_reverse_segment_is_permutation(s, i + 1, j + 1);
                }
                reverse_segment(&mut variables, i + 1, j + 1);
                neighbors.push(Solution::new(variables));
                j = j + 1;
            }
            proof {
                let after = two_opt_rows(s, i + 1);
                assert(after == before + two_opt_row(s, i as int));
                assert forall|k: int|
                    0 <= k < neighbors.len() implies (#[trigger] neighbors[k]).spec_variables() == after[k]
                        && neighbors[k].spec_quality() is None && is_permutation_of(s, neighbors[k].spec_variables()) by {
                    if k >= base {
                        assert(after[k] == two_opt_row(s, i as int)[k - base]);
                    }
                }
            }
            i = i + 1;
        }
        Some(neighbors)
    }
}

impl Operator for TwoOptNeighborhood {
    fn name(&self) -> (r: &str)
        ensures
            r@ == "TwoOptNeighborhood"@,
    {
        "TwoOptNeighborhood"
    }
}

impl Default for TwoOptNeighborhood {
    fn default() -> Self {
        Self::new()
    }
}

/// The 2-opt enumeration lists exactly as many neighbors as the neighborhood
/// size counts.
pub proof fn lemma_two_opt_enumeration_matches_size(s: Seq<usize>)
    requires
        s.len() >= 3,
    ensures
        2 * two_opt_rows(s, s.len() - 2).len() == (s.len() - 1) * (s.len() - 2),
        two_opt_rows(s, s.len() - 2).len() == (s.len() - 1) * (s.len() - 2) / 2,
{
    lemma_two_opt_rows_len(s, s.len() - 2);
    let n = s.len() as int;
    assert((n - 2) * (2 * n - 3 - (n - 2)) == (n - 1) * (n - 2)) by (nonlinear_arith);
}
} // verus!
