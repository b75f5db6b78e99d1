//! Non-dominated sorting for NSGA-II.
//!
//! The population's dominance relation is given as a matrix of verdicts
//! (`dominance[p][q]` tells whether individual `p` dominates individual `q`);
//! the sort splits the indices into successive Pareto fronts.
use vstd::prelude::*;

verus! {

/// `p` dominates `q` according to the matrix `m` (the diagonal is ignored).
pub open spec fn dominates_at(m: Seq<Seq<bool>>, p: usize, q: usize) -> bool {
    p != q && m[p as int][q as int]
}

/// The rows of a boolean matrix, as sequences.
pub open spec fn matrix_view(d: &Vec<Vec<bool>>) -> Seq<Seq<bool>> {
    d@.map_values(|row: Vec<bool>| row@)
}

/// `m` is an `n` by `n` matrix, `n` its number of rows.
pub open spec fn is_square(m: Seq<Seq<bool>>) -> bool {
    forall|i: int| 0 <= i < m.len() ==> (#[trigger] m[i]).len() == m.len()
}

/// No two individuals dominate each other.
pub open spec fn is_asymmetric(m: Seq<Seq<bool>>) -> bool {
    forall|p: usize, q: usize|
        p < m.len() && q < m.len() ==> !(#[trigger] dominates_at(m, p, q) && #[trigger] dominates_at(m, q, p))
}

/// Individuals placed in the first `k` fronts: front `k` holds the
/// individuals not yet placed all of whose dominators are placed.
pub open spec fn settled(m: Seq<Seq<bool>>, k: nat) -> Set<usize>
    decreases k,
{
    if k == 0 {
        Set::empty()
    } else {
        let prev = settled(m, (k - 1) as nat);
        prev.union(
            Set::new(
                |q: usize|
                    q < m.len() && !prev.contains(q) && forall|p: usize|
                        p < m.len() && #[trigger] dominates_at(m, p, q) ==> prev.contains(p),
            ),
        )
    }
}

/// The `k`-th Pareto front (counting from zero).
pub open spec fn front(m: Seq<Seq<bool>>, k: nat) -> Set<usize> {
    settled(m, k + 1).difference(settled(m, k))
}

/// Number of individuals below `k` that dominate `q` and are not in `placed`.
pub open spec fn pending_dominators(m: Seq<Seq<bool>>, q: usize, placed: Set<usize>, k: nat) -> nat
    decreases k,
{
    if k == 0 {
        0
    } else {
        let p = (k - 1) as usize;
        pending_dominators(m, q, placed, (k - 1) as nat) + if dominates_at(m, p, q) && !placed.contains(p) {
            1nat
        } else {
            0nat
        }
    }
}

proof fn lemma_pending_insert(m: Seq<Seq<bool>>, q: usize, placed: Set<usize>, p0: usize, k: nat)
    requires
        k <= usize::MAX + 1,
    ensures
        pending_dominators(m, q, placed.insert(p0), k) == pending_dominators(m, q, placed, k) - (
        if (p0 as int) < k && dominates_at(m, p0, q) && !placed.contains(p0) {
            1int
        } else {
            0int
        }),
    decreases k,
{
    if k > 0 {
        lemma_pending_insert(m, q, placed, p0, (k - 1) as nat);
    }
}

proof fn lemma_pending_zero(m: Seq<Seq<bool>>, q: usize, placed: Set<usize>, k: nat)
    requires
        k <= usize::MAX + 1,
    ensures
        (pending_dominators(m, q, placed, k) == 0) <==> (forall|p: usize|
            (p as int) < k && #[trigger] dominates_at(m, p, q) ==> placed.contains(p)),
    decreases k,
{
    if k > 0 {
        lemma_pending_zero(m, q, placed, (k - 1) as nat);
        let last = (k - 1) as usize;
        if pending_dominators(m, q, placed, k) == 0 {
            assert forall|p: usize| (p as int) < k && #[trigger] dominates_at(m, p, q) implies placed.contains(p) by {
                if p != last {
                    assert((p as int) < k - 1);
                }
            }
        }
    }
}

proof fn lemma_pending_positive(m: Seq<Seq<bool>>, q: usize, placed: Set<usize>, p0: usize, k: nat)
    requires
        k <= usize::MAX + 1,
        (p0 as int) < k,
        dominates_at(m, p0, q),
        !placed.contains(p0),
    ensures
        pending_dominators(m, q, placed, k) >= 1,
    decreases k,
{
    if p0 as int != k - 1 {
        lemma_pending_positive(m, q, placed, p0, (k - 1) as nat);
    }
}

/// Placed sets only grow, and hold indices of the population.
proof fn lemma_settled_grows(m: Seq<Seq<bool>>, j: nat, k: nat)
    requires
        j <= k,
    ensures
        settled(m, j).subset_of(settled(m, k)),
        forall|x: usize| #[trigger] settled(m, k).contains(x) ==> x < m.len(),
    decreases k,
{
    if k > 0 {
        lemma_settled_grows(m, if j == k { (k - 1) as nat } else { j }, (k - 1) as nat);
    }
}

/// Front `k` in closed form.
proof fn lemma_front_closed_form(m: Seq<Seq<bool>>, k: nat, q: usize)
    ensures
        front(m, k).contains(q) <==> (q < m.len() && !settled(m, k).contains(q) && forall|p: usize|
            p < m.len() && #[trigger] dominates_at(m, p, q) ==> settled(m, k).contains(p)),
{
}

/// The indices of `s` increase strictly.
pub open spec fn strictly_increasing(s: Seq<usize>) -> bool {
    forall|a: int, b: int| 0 <= a < b < s.len() ==> s[a] < s[b]
}

/// Position `k` of `fr` holds the last member of `fr` that dominates `y`.
pub open spec fn last_dominator_at(m: Seq<Seq<bool>>, fr: Seq<usize>, y: usize, k: int) -> bool {
    &&& 0 <= k < fr.len()
    &&& dominates_at(m, fr[k], y)
    &&& forall|j: int| k < j < fr.len() ==> !#[trigger] dominates_at(m, fr[j], y)
}

/// Some member of `fr` dominates `y`; the last one is at some position.
pub open spec fn has_last_dominator(m: Seq<Seq<bool>>, fr: Seq<usize>, y: usize) -> bool {
    exists|k: int| #[trigger] last_dominator_at(m, fr, y, k)
}

/// `next` lists its members in the order in which walking `fr` from the
/// start meets their last dominator, and members met at the same dominator
/// by increasing index; each member has a dominator in `fr`.
pub open spec fn discovery_ordered(m: Seq<Seq<bool>>, fr: Seq<usize>, next: Seq<usize>) -> bool {
    &&& forall|a: int| 0 <= a < next.len() ==> #[trigger] has_last_dominator(m, fr, next[a])
    &&& forall|a: int, b: int, ka: int, kb: int|
        #![trigger last_dominator_at(m, fr, next[a], ka), last_dominator_at(m, fr, next[b], kb)]
        (0 <= a < b < next.len() && last_dominator_at(m, fr, next[a], ka) && last_dominator_at(m, fr, next[b], kb))
            ==> (ka < kb || (ka == kb && next[a] < next[b]))
}

/// The last dominator of `y` in `fr` has one position.
proof fn lemma_last_dominator_unique(m: Seq<Seq<bool>>, fr: Seq<usize>, y: usize, k1: int, k2: int)
    requires
        last_dominator_at(m, fr, y, k1),
        last_dominator_at(m, fr, y, k2),
    ensures
        k1 == k2,
{
    if k1 < k2 {
        assert(!dominates_at(m, fr[k2], y));
    } else if k2 < k1 {
        assert(!dominates_at(m, fr[k1], y));
    }
}

/// A front listed with the positions of its members' last dominators,
/// ordered by those positions and then by index, is in discovery order.
proof fn lemma_discovery_ordered(m: Seq<Seq<bool>>, fr: Seq<usize>, next: Seq<usize>, keys: Seq<int>)
    requires
        keys.len() == next.len(),
        forall|j: int| #![trigger keys[j]] 0 <= j < keys.len() ==> last_dominator_at(m, fr, next[j], keys[j]),
        forall|a: int, b: int|
            #![trigger keys[a], keys[b]] 0 <= a < b < keys.len() ==> (keys[a] < keys[b] || (keys[a] == keys[b] && next[a] < next[b])),
    ensures
        discovery_ordered(m, fr, next),
{
    assert forall|a: int| 0 <= a < next.len() implies #[trigger] has_last_dominator(m, fr, next[a]) by {
        assert(last_dominator_at(m, fr, next[a], keys[a]));
    }
    assert forall|a: int, b: int, ka: int, kb: int|
        #![trigger last_dominator_at(m, fr, next[a], ka), last_dominator_at(m, fr, next[b], kb)]
        (0 <= a < b < next.len() && last_dominator_at(m, fr, next[a], ka) && last_dominator_at(m, fr, next[b], kb))
        implies (ka < kb || (ka == kb && next[a] < next[b])) by {
        assert(last_dominator_at(m, fr, next[a], keys[a]));
        assert(last_dominator_at(m, fr, next[b], keys[b]));
        lemma_last_dominator_unique(m, fr, next[a], ka, keys[a]);
        lemma_last_dominator_unique(m, fr, next[b], kb, keys[b]);
    }
}

/// Splits the population indices into Pareto fronts.
///
/// `dominance[p][q]` is the verdict "individual `p` dominates individual
/// `q`"; Pareto dominance never holds in both directions, which `requires`
/// states. Front `k` holds, with no index twice, exactly the individuals of
/// [`front`]`(k)`: those not in an earlier front all of whose dominators are.
/// The list stops before the first empty front, so individuals on a
/// dominance cycle are in no front. The first front lists its members by
/// increasing index; every later front lists them in the order in which
/// they run out of unplaced dominators while the previous front is walked
/// from its start ([`discovery_ordered`]).
pub fn non_dominated_sort(dominance: &Vec<Vec<bool>>) -> (fronts: Vec<Vec<usize>>)
    requires
        is_square(matrix_view(dominance)),
        is_asymmetric(matrix_view(dominance)),
    ensures
        front(matrix_view(dominance), fronts.len() as nat).is_empty(),
        forall|k: int|
            0 <= k < fronts.len() ==> {
                &&& (#[trigger] fronts[k])@.to_set() == front(matrix_view(dominance), k as nat)
                &&& fronts[k]@.no_duplicates()
                &&& fronts[k]@.len() > 0
            },
        fronts.len() > 0 ==> strictly_increasing(fronts[0]@),
        forall|k: int|
            0 <= k < fronts.len() - 1 ==> discovery_ordered(matrix_view(dominance), #[trigger] fronts[k]@, fronts[k + 1]@),
{
    let ghost m = matrix_view(dominance);
    let n = dominance.len();
    assert(forall|p: int| 0 <= p < n ==> #[trigger] dominance@[p]@ == m[p]);
    let mut counts: Vec<usize> = Vec::with_capacity(n);
    let mut lists: Vec<Vec<usize>> = Vec::with_capacity(n);
    let mut first_front: Vec<usize> = Vec::new();
    let mut p: usize = 0;
    while p < n
        invariant
            p <= n,
            n == m.len(),
            n == dominance@.len(),
            m == matrix_view(dominance),
            is_square(m),
            is_asymmetric(m),
            forall|a: int| 0 <= a < n ==> #[trigger] dominance@[a]@ == m[a],
            counts.len() == p,
            lists.len() == p,
            forall|x: usize| x < p ==> counts@[x as int] == pending_dominators(m, x, Set::empty(), n as nat),
            forall|x: usize|
                x < p ==> {
                    &&& (#[trigger] lists@[x as int])@.no_duplicates()
                    &&& forall|y: usize| #![trigger lists@[x as int]@.contains(y)] #![trigger dominates_at(m, x, y)] lists@[x as int]@.contains(y) <==> (y < n && dominates_at(m, x, y))
                },
            first_front@.no_duplicates(),
            forall|y: usize| first_front@.contains(y) <==> (y < p && pending_dominators(m, y, Set::empty(), n as nat) == 0),
            strictly_increasing(first_front@),
            forall|j: int| 0 <= j < first_front@.len() ==> first_front@[j] < p,
            forall|x: usize| x < p ==> strictly_increasing(#[trigger] lists@[x as int]@),
        decreases n - p,
    {
        let mut list: Vec<usize> = Vec::new();
        let mut count: usize = 0;
        let mut q: usize = 0;
        while q < n
            invariant
                p < n,
                n == dominance@.len(),
                m == matrix_view(dominance),
                q <= n,
                n == m.len(),
                is_square(m),
                is_asymmetric(m),
                forall|a: int| 0 <= a < n ==> #[trigger] dominance@[a]@ == m[a],
                count <= q,
                count == pending_dominators(m, p, Set::empty(), q as nat),
                list@.no_duplicates(),
                forall|y: usize| list@.contains(y) <==> (y < q && dominates_at(m, p, y)),
                strictly_increasing(list@),
                forall|j: int| 0 <= j < list@.len() ==> list@[j] < q,
            decreases n - q,
        {
            proof {
                assert(dominance@[p as int]@ == m[p as int]);
                assert(dominance@[q as int]@ == m[q as int]);
                assert(m[p as int].len() == n && m[q as int].len() == n);
            }
            let ghost list_before = list@;
            if p != q {
                if dominance[p][q] {
                    list.push(q);
                } else if dominance[q][p] {
                    count = count + 1;
                }
            }
            proof {
                assert(dominates_at(m, p, q) ==> !dominates_at(m, q, p));
                assert(pending_dominators(m, p, Set::empty(), (q + 1) as nat) == pending_dominators(
                    m,
                    p,
                    Set::empty(),
                    q as nat,
                ) + if dominates_at(m, q, p) && !Set::<usize>::empty().contains(q) {
                    1nat
                } else {
                    0nat
                });
                assert(!list_before.contains(q));
                assert forall|y: usize| list@.contains(y) <==> (y < q + 1 && dominates_at(m, p, y)) by {
                    if dominates_at(m, p, q) {
                        assert(list@ == list_before.push(q));
                        if list@.contains(y) && y != q {
                            let k = choose|k: int| 0 <= k < list@.len() && list@[k] == y;
                            assert(list_before[k] == y);
                        }
                        if y == q {
                            assert(list@[list@.len() - 1] == q);
                        }
                        if list_before.contains(y) {
                            let k = choose|k: int| 0 <= k < list_before.len() && list_before[k] == y;
                            assert(list@[k] == y);
                        }
                    } else {
                        assert(list@ == list_before);
                    }
                }
            }
            q = q + 1;
        }
        let ghost lists_before = lists@;
        let ghost first_before = first_front@;
        assert(q == n);
        assert(list@.no_duplicates());
        let ghost list_v = list@;
        counts.push(count);
        lists.push(list);
        if count == 0 {
            first_front.push(p);
        }
        proof {
            assert(!first_before.contains(p));
            assert forall|y: usize|
                first_front@.contains(y) <==> (y < p + 1 && pending_dominators(m, y, Set::empty(), n as nat) == 0) by {
                if count == 0 {
                    assert(first_front@ == first_before.push(p));
                    if first_front@.contains(y) && y != p {
                        let k = choose|k: int| 0 <= k < first_front@.len() && first_front@[k] == y;
                        assert(first_before[k] == y);
                    }
                    if first_before.contains(y) {
                        let k = choose|k: int| 0 <= k < first_before.len() && first_before[k] == y;
                        assert(first_front@[k] == y);
                    }
                    if y == p {
                        assert(first_front@[first_front@.len() - 1] == p);
                    }
                }
            }
            assert(lists@[p as int]@.no_duplicates());
            assert(forall|x: usize| x < p ==> lists@[x as int] == lists_before[x as int]);
            assert forall|x: usize| x < p + 1 implies counts@[x as int] == pending_dominators(m, x, Set::empty(), n as nat) by {}
            assert forall|x: usize|
                x < p + 1 implies {
                    &&& (#[trigger] lists@[x as int])@.no_duplicates()
                    &&& forall|y: usize| #![trigger lists@[x as int]@.contains(y)] #![trigger dominates_at(m, x, y)] lists@[x as int]@.contains(y) <==> (y < n && dominates_at(m, x, y))
                } by {
                if x == p {
                    assert(lists@[x as int]@ == list_v);
                    assert(list_v.no_duplicates());
                    assert(forall|y: usize| list_v.contains(y) <==> (y < n && dominates_at(m, x, y)));
                } else {
                    assert(lists@[x as int] == lists_before[x as int]);
                    assert(lists_before[x as int]@.no_duplicates());
                    
                }
            }
        }
        p = p + 1;
    }
    proof {
        lemma_settled_grows(m, 0, 1);
        assert forall|y: usize| first_front@.contains(y) <==> front(m, 0).contains(y) by {
            lemma_pending_zero(m, y, Set::empty(), n as nat);
            lemma_front_closed_form(m, 0, y);
        }
        assert(first_front@.to_set() =~= front(m, 0));
    }
    let mut fronts: Vec<Vec<usize>> = Vec::new();
    if first_front.len() > 0 {
        fronts.push(first_front);
    } else {
        assert(front(m, 0) =~= Set::empty()) by {
            assert forall|y: usize| !#[trigger] front(m, 0).contains(y) by {
                if front(m, 0).contains(y) {
                    assert(first_front@.to_set().contains(y));
                }
            }
        }
    }
    let mut i: usize = 0;
    assert(settled(m, 0) =~= Set::<usize>::empty());
    while i < fronts.len()
        invariant
            n == m.len(),
            m == matrix_view(dominance),
            is_square(m),
            is_asymmetric(m),
            i <= fronts.len() <= i + 1,
            fronts.len() <= n + 1,
            counts.len() == n,
            lists.len() == n,
            forall|x: usize| x < n ==> counts@[x as int] == pending_dominators(m, x, settled(m, i as nat), n as nat),
            forall|x: usize|
                x < n ==> {
                    &&& (#[trigger] lists@[x as int])@.no_duplicates()
                    &&& forall|y: usize| #![trigger lists@[x as int]@.contains(y)] #![trigger dominates_at(m, x, y)] lists@[x as int]@.contains(y) <==> (y < n && dominates_at(m, x, y))
                },
            forall|k: int|
                0 <= k < fronts.len() ==> {
                    &&& (#[trigger] fronts[k])@.to_set() == front(m, k as nat)
                    &&& fronts[k]@.no_duplicates()
                    &&& fronts[k]@.len() > 0
                },
            fronts.len() == i ==> front(m, i as nat).is_empty(),
            settled(m, i as nat).finite(),
            settled(m, i as nat).len() >= i,
            forall|x: usize| x < n ==> strictly_increasing(#[trigger] lists@[x as int]@),
            fronts.len() > 0 ==> strictly_increasing(fronts[0]@),
            forall|k: int| 0 <= k < fronts.len() - 1 ==> discovery_ordered(m, #[trigger] fronts[k]@, fronts[k + 1]@),
        decreases n + 1 - i,
    {
        let ghost placed0 = settled(m, i as nat);
        let mut next_front: Vec<usize> = Vec::new();
        let ghost mut keys: Seq<int> = Seq::empty();
        let ghost fr = fronts[i as int]@;
        assert(placed0.union(fronts[i as int]@.take(0).to_set()) =~= placed0);
        let len = fronts[i].len();
        let mut t: usize = 0;
        while t < len
            invariant
                n == m.len(),
                is_square(m),
                is_asymmetric(m),
                i < fronts.len(),
                len == fronts[i as int].len(),
                fronts[i as int]@.to_set() == front(m, i as nat),
                fronts[i as int]@.no_duplicates(),
                placed0 == settled(m, i as nat),
                t <= len,
                counts.len() == n,
                lists.len() == n,
                forall|x: usize|
                    x < n ==> counts@[x as int] == pending_dominators(
                        m,
                        x,
                        placed0.union(fronts[i as int]@.take(t as int).to_set()),
                        n as nat,
                    ),
                forall|x: usize|
                    x < n ==> {
                        &&& (#[trigger] lists@[x as int])@.no_duplicates()
                        &&& forall|y: usize| #![trigger lists@[x as int]@.contains(y)] #![trigger dominates_at(m, x, y)] lists@[x as int]@.contains(y) <==> (y < n && dominates_at(m, x, y))
                    },
                next_front@.no_duplicates(),
                forall|y: usize|
                    next_front@.contains(y) <==> (y < n && counts@[y as int] == 0 && exists|k: int|
                        0 <= k < t && #[trigger] dominates_at(m, fronts[i as int]@[k], y)),
                fr == fronts[i as int]@,
                forall|x: usize| x < n ==> strictly_increasing(#[trigger] lists@[x as int]@),
                keys.len() == next_front@.len(),
                forall|j: int| #![trigger keys[j]] 0 <= j < keys.len() ==> (keys[j] < t && last_dominator_at(m, fr, next_front@[j], keys[j])),
                forall|a: int, b: int|
                    #![trigger keys[a], keys[b]] 0 <= a < b < keys.len() ==> (keys[a] < keys[b] || (keys[a] == keys[b] && next_front@[a] < next_front@[b])),
            decreases len - t,
        {
            let p = fronts[i][t];
            let ghost placed = placed0.union(fronts[i as int]@.take(t as int).to_set());
            proof {
                assert(front(m, i as nat).contains(p));
                lemma_settled_grows(m, i as nat, (i + 1) as nat);
                assert(p < n);
                assert(!fronts[i as int]@.take(t as int).contains(p));
                assert(!placed.contains(p));
            }
            let ghost counts_before = counts@;
            let ghost next_before = next_front@;
            let ghost keys_before = keys;
            let ulen = lists[p].len();
            let mut u: usize = 0;
            assert forall|j: int| #![trigger keys_before[j]] 0 <= j < keys_before.len() implies (keys_before[j] < t && last_dominator_at(m, fr, next_before[j], keys_before[j])) by {
                assert(keys[j] == keys_before[j]);
                assert(last_dominator_at(m, fr, next_front@[j], keys[j]));
            }
            while u < ulen
                invariant
                    n == m.len(),
                    p < n,
                    !placed.contains(p),
                    ulen == lists@[p as int].len(),
                    u <= ulen,
                    counts.len() == n,
                    lists.len() == n,
                    lists@[p as int]@.no_duplicates(),
                    forall|y: usize| #![trigger lists@[p as int]@.contains(y)] #![trigger dominates_at(m, p, y)] lists@[p as int]@.contains(y) <==> (y < n && dominates_at(m, p, y)),
                    forall|x: usize|
                        x < n ==> counts_before[x as int] == pending_dominators(m, x, placed, n as nat),
                    forall|x: usize|
                        x < n ==> counts@[x as int] as int == if lists@[p as int]@.take(u as int).contains(x) {
                            pending_dominators(m, x, placed.insert(p), n as nat) as int
                        } else {
                            counts_before[x as int] as int
                        },
                    next_front@.no_duplicates(),
                    forall|y: usize| #![trigger next_front@.contains(y)]
                        next_front@.contains(y) <==> (y < n && (next_before.contains(y) || (lists@[p as int]@.take(
                            u as int,
                        ).contains(y) && counts@[y as int] == 0))),
                    forall|y: usize| #![trigger next_before.contains(y)]
                        next_before.contains(y) <==> (y < n && counts_before[y as int] == 0 && exists|k: int|
                            0 <= k < t && #[trigger] dominates_at(m, fronts[i as int]@[k], y)),
                    t < len,
                    len == fronts[i as int].len(),
                    p == fronts[i as int]@[t as int],
                    fr == fronts[i as int]@,
                    fr.no_duplicates(),
                    fr.to_set() == front(m, i as nat),
                    placed == placed0.union(fr.take(t as int).to_set()),
                    placed0 == settled(m, i as nat),
                    strictly_increasing(lists@[p as int]@),
                    keys_before.len() == next_before.len(),
                    next_before.len() <= next_front@.len(),
                    keys.len() == next_front@.len(),
                    forall|j: int| 0 <= j < next_before.len() ==> next_front@[j] == next_before[j] && keys[j] == keys_before[j],
                    forall|j: int| #![trigger keys_before[j]] 0 <= j < keys_before.len() ==> (keys_before[j] < t && last_dominator_at(m, fr, next_before[j], keys_before[j])),
                    forall|j: int|
                        #![trigger keys[j]] next_before.len() <= j < keys.len() ==> (keys[j] == t && last_dominator_at(m, fr, next_front@[j], t as int)),
                    forall|j: int, x: int|
                        #![trigger next_front@[j], lists@[p as int]@[x]] next_before.len() <= j < keys.len() && u <= x < ulen ==> next_front@[j] < lists@[p as int]@[x],
                    forall|a: int, b: int|
                        #![trigger keys[a], keys[b]] 0 <= a < b < keys.len() ==> (keys[a] < keys[b] || (keys[a] == keys[b] && next_front@[a] < next_front@[b])),
                decreases ulen - u,
            {
                let q = lists[p][u];
                proof {
                    assert(lists@[p as int]@.contains(q));
                    lemma_pending_positive(m, q, placed, p, n as nat);
                    lemma_pending_insert(m, q, placed, p, n as nat);
                    assert(!lists@[p as int]@.take(u as int).contains(q));
                    assert(lists@[p as int]@.take(u + 1) =~= lists@[p as int]@.take(u as int).push(q));
                }
                let ghost counts_mid = counts@;
                let ghost next_mid = next_front@;
                let ghost keys_mid = keys;
                let ghost pre = lists@[p as int]@.take(u as int);
                let ghost post = lists@[p as int]@.take(u + 1);
                proof {
                    assert(!next_before.contains(q));
                    assert(!next_mid.contains(q));
                }
                let c = counts[q];
                let c1 = if c > 0 { c - 1 } else { 0 };
                counts.set(q, c1);
                if c1 == 0 {
                    proof {
                        assert(!next_before.contains(q));
                        assert(!next_mid.contains(q));
                    }
                    next_front.push(q);
                    proof {
                        assert(post[u as int] == q);
                        assert(last_dominator_at(m, fr, q, t as int)) by {
                        assert(counts@[q as int] == 0);
                        assert(post.contains(q));
                        assert(pending_dominators(m, q, placed.insert(p), n as nat) == 0);
                        lemma_pending_zero(m, q, placed.insert(p), n as nat);
                        assert forall|j: int| t < j < fr.len() implies !#[trigger] dominates_at(m, fr[j], q) by {
                            let d = fr[j];
                            assert(fr.to_set().contains(d));
                            lemma_settled_grows(m, i as nat, (i + 1) as nat);
                            assert(d < n);
                            assert(!placed0.contains(d));
                            assert(d != p);
                            if fr.take(t as int).to_set().contains(d) {
                                let x = choose|x: int| 0 <= x < t && fr.take(t as int)[x] == d;
                                assert(fr[x] == d);
                            }
                        }
                        assert(dominates_at(m, fr[t as int], q));
                        }
                        keys = keys.push(t as int);
                    }
                }
                proof {
                    assert forall|x: usize| post.contains(x) <==> (pre.contains(x) || x == q) by {
                        if post.contains(x) && x != q {
                            let k = choose|k: int| 0 <= k < post.len() && post[k] == x;
                            assert(pre[k] == x);
                        }
                        if pre.contains(x) {
                            let k = choose|k: int| 0 <= k < pre.len() && pre[k] == x;
                            assert(post[k] == x);
                        }
                        if x == q {
                            assert(post[u as int] == q);
                        }
                    }
                    assert forall|x: usize|
                        x < n implies counts@[x as int] as int == if post.contains(x) {
                            pending_dominators(m, x, placed.insert(p), n as nat) as int
                        } else {
                            counts_before[x as int] as int
                        } by {
                        if x != q {
                            assert(counts@[x as int] == counts_mid[x as int]);
                        }
                    }
                    assert forall|y: usize| #![trigger next_front@.contains(y)]
                        next_front@.contains(y) <==> (y < n && (next_before.contains(y) || (post.contains(y)
                            && counts@[y as int] == 0))) by {
                        if y != q && y < n {
                            assert(counts@[y as int] == counts_mid[y as int]);
                            assert(post.contains(y) == pre.contains(y));
                            assert(next_mid.contains(y) <==> (y < n && (next_before.contains(y) || (pre.contains(y) && counts_mid[y as int] == 0))));
                            if c1 == 0 {
                                assert(next_front@ == next_mid.push(q));
                                if next_front@.contains(y) {
                                    let k = choose|k: int| 0 <= k < next_front@.len() && next_front@[k] == y;
                                    assert(next_mid[k] == y);
                                    assert(next_mid.contains(y));
                                }
                                if next_mid.contains(y) {
                                    let k = choose|k: int| 0 <= k < next_mid.len() && next_mid[k] == y;
                                    assert(next_front@[k] == y);
                                }
                            } else {
                                assert(next_front@ == next_mid);
                            }
                        } else if y == q {
                            if c1 == 0 {
                                assert(next_front@[next_front@.len() - 1] == q);
                            } else {
                                assert(next_front@ == next_mid);
                                assert(!next_front@.contains(q));
                            }
                        } else {
                            if c1 == 0 {
                                assert(next_front@ == next_mid.push(q));
                                if next_front@.contains(y) {
                                    let k = choose|k: int| 0 <= k < next_front@.len() && next_front@[k] == y;
                                    assert(next_mid[k] == y);
                                    assert(next_mid.contains(y));
                                }
                            } else {
                                assert(next_front@ == next_mid);
                                if next_front@.contains(y) {
                                    assert(next_mid.contains(y));
                                }
                            }
                        }
                    }
                }
                proof {
                    let big_l = next_mid.len() as int;
                    assert(keys.len() == next_front@.len());
                    assert forall|j: int| 0 <= j < next_before.len() implies (next_front@[j] == next_before[j] && keys[j] == keys_before[j]) by {
                        assert(next_front@[j] == next_mid[j]);
                        assert(keys[j] == keys_mid[j]);
                    }
                    assert forall|j: int| #![trigger keys[j]] next_before.len() <= j < keys.len() implies (keys[j] == t
                        && last_dominator_at(m, fr, next_front@[j], t as int)) by {
                        if j < big_l {
                            assert(next_front@[j] == next_mid[j]);
                            assert(keys[j] == keys_mid[j]);
                            assert(keys_mid[j] == t);
                            assert(last_dominator_at(m, fr, next_mid[j], t as int));
                        } else {
                            assert(next_front@[j] == q);
                        }
                    }
                    assert forall|j: int, x: int| #![trigger next_front@[j], lists@[p as int]@[x]]
                        (next_before.len() <= j < keys.len() && u + 1 <= x < ulen) implies next_front@[j] < lists@[p as int]@[x] by {
                        assert(lists@[p as int]@[u as int] < lists@[p as int]@[x]);
                        if j < big_l {
                            assert(next_front@[j] == next_mid[j]);
                            assert(keys[j] == keys_mid[j]);
                            assert(next_mid[j] < lists@[p as int]@[x]);
                        } else {
                            assert(next_front@[j] == q);
                        }
                    }
                    assert forall|a: int, b: int| #![trigger keys[a], keys[b]]
                        0 <= a < b < keys.len() implies (keys[a] < keys[b] || (keys[a] == keys[b]
                            && next_front@[a] < next_front@[b])) by {
                        if b < big_l {
                            assert(keys[a] == keys_mid[a] && keys[b] == keys_mid[b]);
                            assert(next_front@[a] == next_mid[a] && next_front@[b] == next_mid[b]);
                            assert(keys_mid[a] < keys_mid[b] || (keys_mid[a] == keys_mid[b] && next_mid[a] < next_mid[b]));
                        } else {
                            assert(keys[b] == t);
                            assert(next_front@[b] == q);
                            if a < next_before.len() {
                                assert(keys[a] == keys_before[a]);
                            } else {
                                assert(keys[a] == keys_mid[a]);
                                assert(keys_mid[a] == t);
                                assert(next_front@[a] == next_mid[a]);
                                assert(next_mid[a] < lists@[p as int]@[u as int]);
                            }
                        }
                    }
                }
                u = u + 1;
                assert(lists@[p as int]@.take(u as int) == post);
            }
            proof {
                assert forall|j: int| #![trigger keys[j]] 0 <= j < keys.len() implies (keys[j] < t + 1 && last_dominator_at(m, fr, next_front@[j], keys[j])) by {
                    if j < next_before.len() {
                        assert(last_dominator_at(m, fr, next_before[j], keys_before[j]));
                    } else {
                        assert(keys[j] == t);
                        assert(last_dominator_at(m, fr, next_front@[j], t as int));
                    }
                }
                assert(lists@[p as int]@.take(ulen as int) =~= lists@[p as int]@);
                let placed2 = placed0.union(fronts[i as int]@.take(t + 1).to_set());
                assert(fronts[i as int]@.take(t + 1) =~= fronts[i as int]@.take(t as int).push(p));
                fronts[i as int]@.take(t as int).lemma_push_to_set_commute(p);
                assert(placed2 =~= placed.insert(p));
                assert forall|x: usize| x < n implies counts@[x as int] == pending_dominators(m, x, placed2, n as nat) by {
                    lemma_pending_insert(m, x, placed, p, n as nat);
                }
                assert forall|y: usize|
                    next_front@.contains(y) <==> (y < n && counts@[y as int] == 0 && exists|k: int|
                        0 <= k < t + 1 && #[trigger] dominates_at(m, fronts[i as int]@[k], y)) by {
                    if y < n && counts@[y as int] == 0 && exists|k: int|
                        0 <= k < t + 1 && #[trigger] dominates_at(m, fronts[i as int]@[k], y) {
                        let k = choose|k: int| 0 <= k < t + 1 && #[trigger] dominates_at(m, fronts[i as int]@[k], y);
                        if k == t {
                            assert(lists@[p as int]@.contains(y));
                        } else {
                            if !lists@[p as int]@.contains(y) {
                                assert(counts@[y as int] == counts_before[y as int]);
                            } else {
                                lemma_pending_positive(m, y, placed, p, n as nat);
                            }
                        }
                    }
                    if next_front@.contains(y) && !next_before.contains(y) {
                        assert(dominates_at(m, fronts[i as int]@[t as int], y));
                    }
                    if next_front@.contains(y) && next_before.contains(y) {
                        if lists@[p as int]@.contains(y) {
                            lemma_pending_positive(m, y, placed, p, n as nat);
                        }
                        assert(counts@[y as int] == counts_before[y as int]);
                        let k = choose|k: int| 0 <= k < t && #[trigger] dominates_at(m, fronts[i as int]@[k], y);
                        assert(dominates_at(m, fronts[i as int]@[k], y));
                    }
                }
            }
            t = t + 1;
        }
        proof {
            assert(fronts[i as int]@.take(len as int) =~= fronts[i as int]@);
            let placed_all = settled(m, (i + 1) as nat);
            assert(placed0.union(fronts[i as int]@.to_set()) =~= placed_all) by {
                lemma_settled_grows(m, i as nat, (i + 1) as nat);
            }
            lemma_settled_grows(m, (i + 1) as nat, (i + 2) as nat);
            assert forall|y: usize| next_front@.contains(y) <==> front(m, (i + 1) as nat).contains(y) by {
                lemma_front_closed_form(m, (i + 1) as nat, y);
                lemma_pending_zero(m, y, placed_all, n as nat);
                if next_front@.contains(y) {
                    let k = choose|k: int| 0 <= k < len && #[trigger] dominates_at(m, fronts[i as int]@[k], y);
                    let p = fronts[i as int]@[k];
                    assert(fronts[i as int]@.to_set().contains(p));
                    assert(!placed0.contains(p));
                    if placed_all.contains(y) {
                        if placed0.contains(y) {
                            lemma_settled_containment_closed(m, i as nat, y, p);
                        } else {
                            assert(front(m, i as nat).contains(y));
                            lemma_front_closed_form(m, i as nat, y);
                        }
                    }
                }
                if front(m, (i + 1) as nat).contains(y) {
                    if forall|k: int| 0 <= k < len ==> !#[trigger] dominates_at(m, fronts[i as int]@[k], y) {
                        assert forall|p: usize| p < n && #[trigger] dominates_at(m, p, y) implies placed0.contains(p) by {
                            assert(placed_all.contains(p));
                            if !placed0.contains(p) {
                                assert(fronts[i as int]@.to_set().contains(p));
                                let k = choose|k: int| 0 <= k < len && fronts[i as int]@[k] == p;
                                assert(dominates_at(m, fronts[i as int]@[k], y));
                            }
                        }
                        lemma_front_closed_form(m, i as nat, y);
                        assert(front(m, i as nat).contains(y));
                    }
                }
            }
            assert(next_front@.to_set() =~= front(m, (i + 1) as nat));
            assert(fr == fronts[i as int]@);
            lemma_discovery_ordered(m, fr, next_front@, keys);
            assert(discovery_ordered(m, fr, next_front@));
        }
        proof {
            lemma_settled_step(m, i as nat, fronts[i as int]@);
            fronts[i as int]@.unique_seq_to_set();
            lemma_settled_bounded(m, (i + 1) as nat);
        }
        if next_front.len() > 0 {
            let ghost fronts_before = fronts@;
            fronts.push(next_front);
            proof {
                assert(fronts[i as int]@ == fr);
                assert forall|k: int| 0 <= k < fronts.len() - 1 implies discovery_ordered(m, #[trigger] fronts[k]@, fronts[k + 1]@) by {
                    if k < i {
                        assert(fronts[k] == fronts_before[k]);
                        assert(fronts[k + 1] == fronts_before[k + 1]);
                    }
                }
            }
        } else {
            proof {
                assert(front(m, (i + 1) as nat) =~= Set::empty()) by {
                    assert forall|y: usize| !#[trigger] front(m, (i + 1) as nat).contains(y) by {
                        if front(m, (i + 1) as nat).contains(y) {
                            assert(next_front@.to_set().contains(y));
                        }
                    }
                }
            }
        }
        i = i + 1;
    }
    fronts
}

/// An individual placed by the first `k` fronts has all its dominators
/// placed by then too.
proof fn lemma_settled_containment_closed(m: Seq<Seq<bool>>, k: nat, y: usize, p: usize)
    requires
        settled(m, k).contains(y),
        p < m.len(),
        dominates_at(m, p, y),
    ensures
        settled(m, k).contains(p),
    decreases k,
{
    let prev = settled(m, (k - 1) as nat);
    if prev.contains(y) {
        lemma_settled_containment_closed(m, (k - 1) as nat, y, p);
    }
    lemma_settled_grows(m, (k - 1) as nat, k);
}

/// Placing front `i` adds its indices to the placed set.
proof fn lemma_settled_step(m: Seq<Seq<bool>>, i: nat, fr: Seq<usize>)
    requires
        settled(m, i).finite(),
        fr.to_set() == front(m, i),
    ensures
        settled(m, i + 1).finite(),
        settled(m, i + 1).len() == settled(m, i).len() + front(m, i).len(),
{
    broadcast use vstd::seq_lib::seq_to_set_is_finite;

    lemma_settled_grows(m, i, i + 1);
    assert(settled(m, i + 1) =~= settled(m, i) + front(m, i));
    vstd::set_lib::lemma_set_disjoint_lens(settled(m, i), front(m, i));
}

/// At most `n` individuals are ever placed.
proof fn lemma_settled_bounded(m: Seq<Seq<bool>>, i: nat)
    requires
        settled(m, i).finite(),
    ensures
        settled(m, i).len() <= m.len(),
{
    broadcast use vstd::seq_lib::seq_to_set_is_finite;

    let r = Seq::new(m.len(), |k: int| k as usize);
    lemma_settled_grows(m, i, i);
    assert forall|x: usize| settled(m, i).contains(x) implies r.to_set().contains(x) by {
        assert(r[x as int] == x);
    }
    r.lemma_cardinality_of_set();
    vstd::set_lib::lemma_len_subset(settled(m, i), r.to_set());
}

/// Dominance is transitive over the population.
pub open spec fn is_transitive(m: Seq<Seq<bool>>) -> bool {
    forall|a: usize, b: usize, c: usize|
        a < m.len() && b < m.len() && c < m.len() && #[trigger] dominates_at(m, a, b) && #[trigger] dominates_at(
            m,
            b,
            c,
        ) ==> dominates_at(m, a, c)
}

/// Every placed individual belongs to one of the fronts that placed it.
pub proof fn lemma_settled_in_some_front(m: Seq<Seq<bool>>, k: nat, x: usize)
    requires
        settled(m, k).contains(x),
    ensures
        exists|j: nat| j < k && #[trigger] front(m, j).contains(x),
    decreases k,
{
    let prev = settled(m, (k - 1) as nat);
    if prev.contains(x) {
        lemma_settled_in_some_front(m, (k - 1) as nat, x);
        let j = choose|j: nat| j < k - 1 && #[trigger] front(m, j).contains(x);
        assert(front(m, j).contains(x));
    } else {
        assert(front(m, (k - 1) as nat).contains(x));
    }
}

/// Whoever dominates a member of front `k` sits in an earlier front.
pub proof fn lemma_dominators_in_earlier_fronts(m: Seq<Seq<bool>>, k: nat, p: usize, q: usize)
    requires
        front(m, k).contains(q),
        p < m.len(),
        dominates_at(m, p, q),
    ensures
        exists|j: nat| j < k && #[trigger] front(m, j).contains(p),
{
    lemma_front_closed_form(m, k, q);
    lemma_settled_in_some_front(m, k, p);
}

/// No individual is in two fronts.
pub proof fn lemma_fronts_disjoint(m: Seq<Seq<bool>>, j: nat, k: nat)
    requires
        j < k,
    ensures
        front(m, j).disjoint(front(m, k)),
{
    lemma_settled_grows(m, j + 1, k);
}

/// Following dominators from an unplaced individual, `i` steps back.
spec fn dominator_chain(m: Seq<Seq<bool>>, placed: Set<usize>, q0: usize, i: nat) -> usize
    decreases i,
{
    if i == 0 {
        q0
    } else {
        let prev = dominator_chain(m, placed, q0, (i - 1) as nat);
        choose|p: usize| p < m.len() && dominates_at(m, p, prev) && !placed.contains(p)
    }
}

proof fn lemma_dominator_chain(m: Seq<Seq<bool>>, k: nat, q0: usize, i: nat)
    requires
        front(m, k).is_empty(),
        q0 < m.len(),
        !settled(m, k).contains(q0),
        is_transitive(m),
    ensures
        dominator_chain(m, settled(m, k), q0, i) < m.len(),
        !settled(m, k).contains(dominator_chain(m, settled(m, k), q0, i)),
        forall|h: nat| h < i ==> dominates_at(m, dominator_chain(m, settled(m, k), q0, i), #[trigger] dominator_chain(m, settled(m, k), q0, h)),
    decreases i,
{
    let placed = settled(m, k);
    if i > 0 {
        lemma_dominator_chain(m, k, q0, (i - 1) as nat);
        let prev = dominator_chain(m, placed, q0, (i - 1) as nat);
        lemma_front_closed_form(m, k, prev);
        assert(!front(m, k).contains(prev));
        let cur = dominator_chain(m, placed, q0, i);
        assert(cur < m.len() && dominates_at(m, cur, prev) && !placed.contains(cur));
        assert forall|h: nat| h < i implies dominates_at(m, cur, #[trigger] dominator_chain(m, placed, q0, h)) by {
            if h < i - 1 {
                lemma_dominator_chain(m, k, q0, h);
                let mid = dominator_chain(m, placed, q0, h);
                assert(dominates_at(m, prev, mid));
                assert(mid < m.len());
            }
        }
    }
}

/// When dominance is transitive (a strict partial order, as Pareto dominance
/// is on comparable objective vectors), the fronts up to the first empty one
/// place the whole population; with [`lemma_settled_in_some_front`], every
/// individual receives a rank.
pub proof fn lemma_fronts_cover_population(m: Seq<Seq<bool>>, k: nat)
    requires
        is_transitive(m),
        front(m, k).is_empty(),
    ensures
        forall|q: usize| q < m.len() ==> #[trigger] settled(m, k).contains(q),
{
    broadcast use vstd::seq_lib::seq_to_set_is_finite;

    assert forall|q: usize| q < m.len() implies #[trigger] settled(m, k).contains(q) by {
        if !settled(m, k).contains(q) {
            let placed = settled(m, k);
            let n = m.len();
            let chain = Seq::new(n + 1, |i: int| dominator_chain(m, placed, q, i as nat));
            assert forall|i: int| 0 <= i < chain.len() implies #[trigger] chain[i] < n by {
                lemma_dominator_chain(m, k, q, i as nat);
            }
            assert(chain.no_duplicates()) by {
                assert forall|a: int, b: int| 0 <= a < chain.len() && 0 <= b < chain.len() && a != b implies chain[a] != chain[b] by {
                    let hi = if a < b { b } else { a };
                    let lo = if a < b { a } else { b };
                    lemma_dominator_chain(m, k, q, hi as nat);
                    assert(dominates_at(m, dominator_chain(m, placed, q, hi as nat), dominator_chain(m, placed, q, lo as nat)));
                }
            }
            chain.unique_seq_to_set();
            let r = Seq::new(n, |i: int| i as usize);
            assert forall|x: usize| chain.to_set().contains(x) implies r.to_set().contains(x) by {
                let i = choose|i: int| 0 <= i < chain.len() && chain[i] == x;
                assert(chain[i] < n);
                assert(r[x as int] == x);
            }
            r.lemma_cardinality_of_set();
            vstd::set_lib::lemma_len_subset(chain.to_set(), r.to_set());
            assert(false);
        }
    }
}

/// Lists of indices, as sequences.
pub open spec fn lists_view(d: &Vec<Vec<usize>>) -> Seq<Seq<usize>> {
    d@.map_values(|list: Vec<usize>| list@)
}

/// Position of the last list that holds `i`, if any does.
pub open spec fn last_list_holding(lists: Seq<Seq<usize>>, i: usize) -> Option<usize>
    decreases lists.len(),
{
    if lists.len() == 0 {
        None
    } else if lists.last().contains(i) {
        Some((lists.len() - 1) as usize)
    } else {
        last_list_holding(lists.drop_last(), i)
    }
}

proof fn lemma_last_list_holding(lists: Seq<Seq<usize>>, i: usize)
    requires
        lists.len() <= usize::MAX,
    ensures
        last_list_holding(lists, i) matches Some(r) ==> r < lists.len() && lists[r as int].contains(i),
        last_list_holding(lists, i) is None ==> forall|k: int| 0 <= k < lists.len() ==> !(#[trigger] lists[k]).contains(i),
        forall|k: int|
            0 <= k < lists.len() && (#[trigger] lists[k]).contains(i) ==> (last_list_holding(lists, i) matches Some(r)
                && k <= r),
    decreases lists.len(),
{
    if lists.len() > 0 && !lists.last().contains(i) {
        let rest = lists.drop_last();
        lemma_last_list_holding(rest, i);
        assert forall|k: int| 0 <= k < lists.len() && (#[trigger] lists[k]).contains(i) implies (last_list_holding(lists, i) matches Some(r) && k <= r) by {
            assert(rest[k] == lists[k]);
        }
        assert forall|k: int| 0 <= k < lists.len() && last_list_holding(lists, i) is None implies !(#[trigger] lists[k]).contains(i) by {
            if k < lists.len() - 1 {
                assert(rest[k] == lists[k]);
            }
        }
    }
}

/// Rank of each of `n` individuals: the position of the front that holds it
/// (of the last such front, should several), or `None` when no front does.
pub fn front_ranks(fronts: &Vec<Vec<usize>>, n: usize) -> (ranks: Vec<Option<usize>>)
    requires
        forall|k: int, j: int| 0 <= k < fronts.len() && 0 <= j < fronts[k].len() ==> #[trigger] fronts[k][j] < n,
    ensures
        ranks.len() == n,
        forall|i: usize| i < n ==> #[trigger] ranks@[i as int] == last_list_holding(lists_view(fronts), i),
{
    let ghost lists = lists_view(fronts);
    let mut ranks: Vec<Option<usize>> = Vec::new();
    let mut i: usize = 0;
    while i < n
        invariant
            i <= n,
            ranks.len() == i,
            forall|x: int| 0 <= x < i ==> ranks@[x] is None,
        decreases n - i,
    {
        ranks.push(None);
        i = i + 1;
    }
    assert forall|x: usize| x < n implies #[trigger] ranks@[x as int] == last_list_holding(lists.take(0), x) by {}
    let mut k: usize = 0;
    while k < fronts.len()
        invariant
            k <= fronts.len(),
            ranks.len() == n,
            lists == lists_view(fronts),
            forall|a: int, b: int| 0 <= a < fronts.len() && 0 <= b < fronts[a].len() ==> #[trigger] fronts[a][b] < n,
            forall|x: usize| x < n ==> #[trigger] ranks@[x as int] == last_list_holding(lists.take(k as int), x),
        decreases fronts.len() - k,
    {
        let front = &fronts[k];
        assert(front@ == lists[k as int]);
        let mut j: usize = 0;
        while j < front.len()
            invariant
                k < fronts.len(),
                j <= front.len(),
                front@ == lists[k as int],
                front == fronts[k as int],
                ranks.len() == n,
                forall|b: int| 0 <= b < front.len() ==> #[trigger] front[b] < n,
                forall|x: usize|
                    x < n ==> #[trigger] ranks@[x as int] == (if front@.take(j as int).contains(x) {
                        Some(k)
                    } else {
                        last_list_holding(lists.take(k as int), x)
                    }),
            decreases front.len() - j,
        {
            let idx = front[j];
            ranks.set(idx, Some(k));
            proof {
                let grown = front@.take(j + 1);
                assert(grown =~= front@.take(j as int).push(idx));
                assert forall|x: usize| x < n implies #[trigger] ranks@[x as int] == (if grown.contains(x) {
                    Some(k)
                } else {
                    last_list_holding(lists.take(k as int), x)
                }) by {
                    if x == idx {
                        assert(grown[j as int] == x);
                    } else if front@.take(j as int).contains(x) {
                        let w = choose|w: int| 0 <= w < j && front@.take(j as int)[w] == x;
                        assert(grown[w] == x);
                    } else if grown.contains(x) {
                        let w = choose|w: int| 0 <= w < j + 1 && grown[w] == x;
                        if w < j {
                            assert(front@.take(j as int)[w] == x);
                        }
                    }
                }
            }
            j = j + 1;
        }
        proof {
            assert(front@.take(front.len() as int) =~= lists[k as int]);
            let next = lists.take(k + 1);
            assert(next.drop_last() =~= lists.take(k as int));
            assert(next.last() == lists[k as int]);
        }
        k = k + 1;
    }
    assert(lists.take(fronts.len() as int) =~= lists);
    ranks
}

/// Splits the population into Pareto fronts, as [`non_dominated_sort`]
/// does (in the same order), and gives each individual the position of its front as rank
/// (`None` for individuals in no front).
pub fn annotate_ranks(dominance: &Vec<Vec<bool>>) -> (r: (Vec<Vec<usize>>, Vec<Option<usize>>))
    requires
        is_square(matrix_view(dominance)),
        is_asymmetric(matrix_view(dominance)),
    ensures
        front(matrix_view(dominance), r.0.len() as nat).is_empty(),
        forall|k: int|
            0 <= k < r.0.len() ==> {
                &&& (#[trigger] r.0[k])@.to_set() == front(matrix_view(dominance), k as nat)
                &&& r.0[k]@.no_duplicates()
                &&& r.0[k]@.len() > 0
            },
        r.1.len() == dominance.len(),
        forall|i: usize|
            i < dominance.len() && (#[trigger] r.1@[i as int]) is Some ==> r.1@[i as int]->0 < r.0.len()
                && front(matrix_view(dominance), r.1@[i as int]->0 as nat).contains(i),
        forall|i: usize, k: nat|
            i < dominance.len() && r.1@[i as int] is None && k < r.0.len() ==> !#[trigger] front(
                matrix_view(dominance),
                k,
            ).contains(i),
        r.0.len() > 0 ==> strictly_increasing(r.0[0]@),
        forall|k: int|
            0 <= k < r.0.len() - 1 ==> discovery_ordered(matrix_view(dominance), #[trigger] r.0[k]@, r.0[k + 1]@),
{
    let ghost m = matrix_view(dominance);
    let fronts = non_dominated_sort(dominance);
    let n = dominance.len();
    assert forall|k: int, j: int| 0 <= k < fronts.len() && 0 <= j < fronts[k].len() implies #[trigger] fronts[k][j] < n by {
        assert(fronts[k]@.to_set().contains(fronts[k]@[j]));
        lemma_front_closed_form(m, k as nat, fronts[k][j]);
    }
    let ranks = front_ranks(&fronts, n);
    proof {
        let lists = lists_view(&fronts);
        assert forall|i: usize| i < n && (#[trigger] ranks@[i as int]) is Some implies ranks@[i as int]->0 < fronts.len()
            && front(m, ranks@[i as int]->0 as nat).contains(i) by {
            lemma_last_list_holding(lists, i);
            let k = ranks@[i as int]->0;
            assert(lists[k as int] == fronts[k as int]@);
            assert(fronts[k as int]@.to_set().contains(i));
        }
        assert forall|i: usize, k: nat| i < n && ranks@[i as int] is None && k < fronts.len() implies !#[trigger] front(m, k).contains(i) by {
            lemma_last_list_holding(lists, i);
            assert(lists[k as int] == fronts[k as int]@);
            if front(m, k).contains(i) {
                assert(fronts[k as int]@.to_set().contains(i));
            }
        }
    }
    (fronts, ranks)
}

/// Whoever dominates an individual has a strictly lower rank: if `p` is in
/// front `j`, `q` in front `k` and `p` dominates `q`, then `j < k`.
pub proof fn lemma_dominator_has_lower_rank(m: Seq<Seq<bool>>, p: usize, q: usize, j: nat, k: nat)
    requires
        front(m, j).contains(p),
        front(m, k).contains(q),
        dominates_at(m, p, q),
    ensures
        j < k,
{
    lemma_front_closed_form(m, j, p);
    lemma_dominators_in_earlier_fronts(m, k, p, q);
    let i = choose|i: nat| i < k && #[trigger] front(m, i).contains(p);
    if i != j {
        if i < j {
            lemma_fronts_disjoint(m, i, j);
        } else {
            lemma_fronts_disjoint(m, j, i);
        }
        assert(false);
    }
}

/// When dominance is transitive, every individual of the population is in
/// one of the fronts up to the first empty one, so every individual is
/// ranked.
pub proof fn lemma_every_individual_ranked(m: Seq<Seq<bool>>, k: nat, q: usize)
    requires
        is_transitive(m),
        front(m, k).is_empty(),
        q < m.len(),
    ensures
        exists|j: nat| j < k && #[trigger] front(m, j).contains(q),
{
    lemma_fronts_cover_population(m, k);
    lemma_settled_in_some_front(m, k, q);
}

/// Number of members in the first `k` fronts.
pub open spec fn members_before(fronts: Seq<Seq<usize>>, k: int) -> int
    decreases k,
{
    if k <= 0 {
        0
    } else {
        members_before(fronts, k - 1) + fronts[k - 1].len()
    }
}

proof fn lemma_members_before_monotone(fronts: Seq<Seq<usize>>, j: int, k: int)
    requires
        0 <= j <= k,
    ensures
        members_before(fronts, j) <= members_before(fronts, k),
    decreases k - j,
{
    if j < k {
        lemma_members_before_monotone(fronts, j, k - 1);
    }
}

/// NSGA-II survivor selection over the fronts, best first: the fronts that
/// fit whole into `population_size`, and how many members of the next front
/// are still to be chosen (by crowding distance, which is left to the
/// caller). Returns `(whole_fronts, partial)`: fronts `0..whole_fronts` are
/// kept whole and `partial` members come from front `whole_fronts` (zero
/// when that front does not exist or no room is left). Together they fill
/// `population_size` places, or take everyone when the fronts hold fewer.
pub fn survivor_plan(fronts: &Vec<Vec<usize>>, population_size: usize) -> (r: (usize, usize))
    ensures
        ({
            let lists = lists_view(fronts);
            let (whole, partial) = r;
            &&& whole <= fronts.len()
            &&& members_before(lists, whole as int) <= population_size
            &&& whole < fronts.len() ==> members_before(lists, whole + 1) > population_size
            &&& partial == (if whole < fronts.len() { population_size - members_before(lists, whole as int) } else { 0 })
            &&& partial <= (if whole < fronts.len() { lists[whole as int].len() as int } else { 0 })
            &&& members_before(lists, whole as int) + partial == (if members_before(lists, fronts.len() as int) <= population_size {
                members_before(lists, fronts.len() as int)
            } else {
                population_size as int
            })
        }),
{
    let ghost lists = lists_view(fronts);
    let mut taken: usize = 0;
    let mut k: usize = 0;
    while k < fronts.len()
        invariant
            k <= fronts.len(),
            lists == lists_view(fronts),
            taken == members_before(lists, k as int),
            taken <= population_size,
        decreases fronts.len() - k,
    {
        let size = fronts[k].len();
        assert(lists[k as int].len() == size);
        if size <= population_size - taken {
            taken = taken + size;
            k = k + 1;
        } else {
            proof {
                lemma_members_before_monotone(lists, k + 1, fronts.len() as int);
            }
            return (k, population_size - taken);
        }
    }
    (k, 0)
}

} // verus!
