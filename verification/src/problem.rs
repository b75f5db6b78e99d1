//! Discrete rules of the permutation problems: which routes and assignments
//! are valid, and how random starting permutations are drawn.
use vstd::prelude::*;
use crate::permutation::{is_index_permutation, is_permutation_of, lemma_swap_is_permutation, swapped};
use crate::text::{lemma_text_lt_total, lemma_text_lt_transitive, push_str, string_from_chars, text_less, text_lt};

verus! {

/// A route over `n` cities is valid: it visits every city exactly once and,
/// when a start city is fixed, starts there.
pub open spec fn valid_route(route: Seq<usize>, n: nat, fixed_start_city: Option<usize>) -> bool {
    &&& is_index_permutation(route, n)
    &&& fixed_start_city matches Some(c) ==> route.len() > 0 && route[0] == c
}

/// Whether `route` is a valid route over `n` cities (see [`valid_route`]).
///
/// The traveling-salesman problem uses it with its optional fixed start
/// city, the quadratic assignment problem without one.
pub fn is_valid_permutation(route: &[usize], n: usize, fixed_start_city: Option<usize>) -> (b: bool)
    ensures
        b == valid_route(route@, n as nat, fixed_start_city),
{
    if route.len() != n {
        return false;
    }
    match fixed_start_city {
        Some(start) => {
            if route.len() == 0 || route[0] != start {
                return false;
            }
        },
        None => {},
    }
    let mut seen: Vec<bool> = Vec::with_capacity(n);
    let mut k: usize = 0;
    while k < n
        invariant
            k <= n,
            seen@ == Seq::new(k as nat, |i: int| false),
        decreases n - k,
    {
        seen.push(false);
        k = k + 1;
    }
    let mut i: usize = 0;
    while i < route.len()
        invariant
            i <= route@.len(),
            route@.len() == n,
            seen@.len() == n,
            forall|a: int| 0 <= a < i ==> #[trigger] route@[a] < n,
            forall|a: int, b: int| 0 <= a < b < i ==> #[trigger] route@[a] != #[trigger] route@[b],
            forall|c: int| 0 <= c < n ==> (#[trigger] seen@[c] <==> exists|a: int| 0 <= a < i && route@[a] == c),
        decreases route@.len() - i,
    {
        let city = route[i];
        if city >= n || seen[city] {
            proof {
                if city < n {
                    let a = choose|a: int| 0 <= a < i && route@[a] == city;
                    assert(route@[a] == route@[i as int]);
                }
            }
            return false;
        }
        seen.set(city, true);
        proof {
            assert forall|c: int| 0 <= c < n implies (#[trigger] seen@[c] <==> exists|a: int| 0 <= a < i + 1 && route@[a] == c) by {
                if c == city {
                    assert(route@[i as int] == c);
                }
            }
            assert forall|a: int, b: int| 0 <= a < b < i + 1 implies #[trigger] route@[a] != #[trigger] route@[b] by {
                if b == i {
                    if route@[a] == route@[b] {
                        assert(seen@[city as int]);
                    }
                }
            }
        }
        i = i + 1;
    }
    true
}

/// `s` after the Fisher-Yates swaps of the first `k` draws: the `t`-th draw
/// swaps position `s.len() - 1 - t` with position `draws[t]`.
pub open spec fn fisher_yates(s: Seq<usize>, draws: Seq<usize>, k: nat) -> Seq<usize>
    decreases k,
{
    if k == 0 {
        s
    } else {
        swapped(
            fisher_yates(s, draws, (k - 1) as nat),
            s.len() - 1 - (k - 1),
            draws[k - 1] as int,
        )
    }
}

/// Draws admissible for shuffling `len` values: one per position from the
/// last down to the second, the `t`-th below `len - t`.
pub open spec fn shuffle_draws_admissible(len: nat, draws: Seq<usize>) -> bool {
    &&& draws.len() == if len == 0 { 0 } else { len - 1 }
    &&& forall|t: int| 0 <= t < draws.len() ==> #[trigger] draws[t] < len - t
}

/// The Fisher-Yates swaps rearrange their input.
pub proof fn lemma_fisher_yates_is_permutation(s: Seq<usize>, draws: Seq<usize>, k: nat)
    requires
        shuffle_draws_admissible(s.len(), draws),
        k <= draws.len(),
    ensures
        fisher_yates(s, draws, k).len() == s.len(),
        is_permutation_of(s, fisher_yates(s, draws, k)),
    decreases k,
{
    if k > 0 {
        lemma_fisher_yates_is_permutation(s, draws, (k - 1) as nat);
        let prev = fisher_yates(s, draws, (k - 1) as nat);
        assert(draws[k - 1] < s.len() - (k - 1));
        lemma_swap_is_permutation(prev, s.len() - 1 - (k - 1), draws[k - 1] as int);
    }
}

fn shuffle_in_place(values: &mut Vec<usize>, draws: &[usize])
    requires
        shuffle_draws_admissible(old(values)@.len(), draws@),
    ensures
        final(values)@ == fisher_yates(old(values)@, draws@, draws@.len()),
{
    let ghost s = values@;
    let len = values.len();
    let mut t: usize = 0;
    while t < draws.len()
        invariant
            len == s.len(),
            shuffle_draws_admissible(s.len(), draws@),
            t <= draws@.len(),
            values@ == fisher_yates(s, draws@, t as nat),
        decreases draws@.len() - t,
    {
        proof {
            lemma_fisher_yates_is_permutation(s, draws@, t as nat);
        }
        let i = len - 1 - t;
        let j = draws[t];
        let a = values[i];
        let b = values[j];
        values.set(i, b);
        values.set(j, a);
        t = t + 1;
    }
}

/// The identity permutation `0, 1, ..., n - 1`.
pub open spec fn identity_permutation(n: nat) -> Seq<usize> {
    Seq::new(n, |i: int| i as usize)
}

/// The predicate "differs from `start`".
pub open spec fn differs_from(start: usize) -> spec_fn(usize) -> bool {
    |c: usize| c != start
}

/// The values `0, 1, ..., n - 1` without `start`, in increasing order.
pub open spec fn identity_without(n: nat, start: usize) -> Seq<usize> {
    identity_permutation(n).filter(differs_from(start))
}

proof fn lemma_identity_distinct(n: nat)
    requires
        n <= usize::MAX + 1,
    ensures
        identity_permutation(n).no_duplicates(),
        forall|i: int| 0 <= i < n ==> #[trigger] identity_permutation(n)[i] == i,
{
}

/// A random route over `n` cities from the Fisher-Yates draws.
///
/// Without a fixed start city the cities `0..n` are shuffled. With one, the
/// route starts at it and the other cities, in increasing order, are
/// shuffled behind it.
pub fn create_route(n: usize, fixed_start_city: Option<usize>, draws: &[usize]) -> (route: Vec<usize>)
    requires
        fixed_start_city matches Some(c) ==> c < n,
        fixed_start_city is None ==> shuffle_draws_admissible(n as nat, draws@),
        fixed_start_city is Some ==> shuffle_draws_admissible((n - 1) as nat, draws@),
    ensures
        fixed_start_city is None ==> route@ == fisher_yates(identity_permutation(n as nat), draws@, draws@.len()),
        fixed_start_city matches Some(c) ==> route@ == seq![c] + fisher_yates(
            identity_without(n as nat, c),
            draws@,
            draws@.len(),
        ),
{
    let mut ids: Vec<usize> = Vec::with_capacity(n);
    let ghost pred = differs_from(fixed_start_city->0);
    let mut k: usize = 0;
    match fixed_start_city {
        None => {
            while k < n
                invariant
                    k <= n,
                    ids@ == identity_permutation(k as nat),
                decreases n - k,
            {
                ids.push(k);
                k = k + 1;
                assert(ids@ =~= identity_permutation(k as nat));
            }
            shuffle_in_place(&mut ids, draws);
            ids
        },
        Some(start) => {
            assert(identity_permutation(0).filter(pred) =~= Seq::<usize>::empty()) by {
                reveal(Seq::filter);
            }
            while k < n
                invariant
                    k <= n,
                    pred == differs_from(start),
                    ids@ == identity_permutation(k as nat).filter(pred),
                decreases n - k,
            {
                proof {
                    assert(identity_permutation((k + 1) as nat) =~= identity_permutation(k as nat).push(k));
                    identity_permutation(k as nat).lemma_filter_push(k, pred);
                }
                if k != start {
                    ids.push(k);
                }
                k = k + 1;
            }
            proof {
                lemma_identity_without_len(n as nat, start);
            }
            shuffle_in_place(&mut ids, draws);
            let mut route: Vec<usize> = Vec::with_capacity(n);
            route.push(start);
            let mut t: usize = 0;
            while t < ids.len()
                invariant
                    t <= ids@.len(),
                    route@ == seq![start] + ids@.take(t as int),
                decreases ids@.len() - t,
            {
                route.push(ids[t]);
                t = t + 1;
                assert(route@ =~= seq![start] + ids@.take(t as int));
            }
            assert(ids@.take(ids@.len() as int) =~= ids@);
            route
        },
    }
}

proof fn lemma_identity_without_len(n: nat, start: usize)
    requires
        start < n,
        n <= usize::MAX + 1,
    ensures
        identity_without(n, start).len() == n - 1,
{
    lemma_identity_prefix_filter_len(n, start, n);
}

proof fn lemma_identity_prefix_filter_len(n: nat, start: usize, k: nat)
    requires
        k <= n,
        n <= usize::MAX + 1,
    ensures
        identity_permutation(k).filter(differs_from(start)).len() == if start < k {
            k - 1
        } else {
            k as int
        },
    decreases k,
{
    if k == 0 {
        reveal(Seq::filter);
    } else {
        lemma_identity_prefix_filter_len(n, start, (k - 1) as nat);
        let prev = identity_permutation((k - 1) as nat);
        assert(identity_permutation(k) =~= prev.push((k - 1) as usize));
        prev.lemma_filter_push((k - 1) as usize, differs_from(start));
    }
}

/// Random routes are valid routes: a shuffle of the cities, starting at the
/// fixed start city when there is one.
pub proof fn lemma_created_route_is_valid(n: nat, fixed_start_city: Option<usize>, draws: Seq<usize>)
    requires
        n <= usize::MAX,
        fixed_start_city matches Some(c) ==> c < n,
        fixed_start_city is None ==> shuffle_draws_admissible(n, draws),
        fixed_start_city is Some ==> shuffle_draws_admissible((n - 1) as nat, draws),
    ensures
        fixed_start_city is None ==> valid_route(fisher_yates(identity_permutation(n), draws, draws.len()), n, None),
        fixed_start_city matches Some(c) ==> valid_route(
            seq![c] + fisher_yates(identity_without(n, c), draws, draws.len()),
            n,
            fixed_start_city,
        ),
{
    broadcast use vstd::seq_lib::group_filter_ensures;

    let id = identity_permutation(n);
    lemma_identity_distinct(n);
    match fixed_start_city {
        None => {
            let r = fisher_yates(id, draws, draws.len());
            lemma_fisher_yates_is_permutation(id, draws, draws.len());
            crate::permutation::lemma_permutation_keeps_distinct(id, r);
            crate::permutation::lemma_permutation_same_values(id, r);
            assert forall|i: int| 0 <= i < r.len() implies #[trigger] r[i] < n by {
                assert(r.contains(r[i]));
            }
        },
        Some(c) => {
            let pred = differs_from(c);
            let s = identity_without(n, c);
            lemma_identity_without_len(n, c);
            crate::permutation::lemma_filter_keeps_distinct(id, pred);
            let r = fisher_yates(s, draws, draws.len());
            lemma_fisher_yates_is_permutation(s, draws, draws.len());
            crate::permutation::lemma_permutation_keeps_distinct(s, r);
            crate::permutation::lemma_permutation_same_values(s, r);
            assert forall|i: int| 0 <= i < r.len() implies #[trigger] r[i] < n && r[i] != c by {
                assert(r.contains(r[i]));
                id.lemma_filter_contains_rev(pred, r[i]);
                let k = choose|k: int| 0 <= k < s.len() && s[k] == r[i];
                assert(pred(s[k]));
            }
            let route = seq![c] + r;
            assert(route.no_duplicates()) by {
                assert forall|a: int, b: int| 0 <= a < route.len() && 0 <= b < route.len() && a != b implies route[a] != route[b] by {
                    if a > 0 && b > 0 {
                        assert(route[a] == r[a - 1] && route[b] == r[b - 1]);
                    } else if a == 0 {
                        assert(route[b] == r[b - 1]);
                    } else {
                        assert(route[a] == r[a - 1]);
                    }
                }
            }
            assert forall|i: int| 0 <= i < route.len() implies #[trigger] route[i] < n by {
                if i > 0 {
                    assert(route[i] == r[i - 1]);
                }
            }
        },
    }
}


/// The texts of a list of strings.
pub open spec fn label_views(labels: Seq<String>) -> Seq<Seq<char>> {
    labels.map_values(|l: String| l@)
}

/// Every label comes strictly before the labels after it.
pub open spec fn strictly_sorted(labels: Seq<Seq<char>>) -> bool {
    forall|i: int, j: int| 0 <= i < j < labels.len() ==> text_lt(#[trigger] labels[i], #[trigger] labels[j])
}

/// `label` is the source or the destination of `edge`.
pub open spec fn edge_has_label(edge: (String, String), label: Seq<char>) -> bool {
    edge.0@ == label || edge.1@ == label
}

/// The city labels named by the edges, as sources or destinations.
pub open spec fn edge_label_set(edges: Seq<(String, String)>) -> Set<Seq<char>> {
    Set::new(|l: Seq<char>| exists|k: int| 0 <= k < edges.len() && #[trigger] edge_has_label(edges[k], l))
}

/// Every ordered pair of two different labels is an edge.
pub open spec fn edges_complete(edges: Seq<(String, String)>) -> bool {
    forall|a: Seq<char>, b: Seq<char>|
        #![trigger edge_label_set(edges).contains(a), edge_label_set(edges).contains(b)]
        edge_label_set(edges).contains(a) && edge_label_set(edges).contains(b) && a != b ==> exists|k: int|
            0 <= k < edges.len() && #[trigger] edges[k].0@ == a && edges[k].1@ == b
}

/// The error for an input without any usable edge.
pub open spec fn no_edges_message(from_key: Seq<char>, to_key: Seq<char>, distance_key: Seq<char>) -> Seq<char> {
    "No valid edges found. Ensure keys '"@ + from_key + "', '"@ + to_key + "' and '"@ + distance_key
        + "' exist and distance is numeric"@
}

/// Inserts `label` into a strictly sorted list unless it is already there.
fn insert_label(labels: &mut Vec<String>, label: &String)
    requires
        strictly_sorted(label_views(old(labels)@)),
    ensures
        strictly_sorted(label_views(final(labels)@)),
        label_views(final(labels)@).to_set() == label_views(old(labels)@).to_set().insert(label@),
{
    let ghost before = label_views(labels@);
    let mut i: usize = 0;
    while i < labels.len()
        invariant
            i <= labels@.len(),
            label_views(labels@) == before,
            strictly_sorted(before),
            forall|k: int| 0 <= k < i ==> text_lt(#[trigger] before[k], label@),
        ensures
            i <= labels@.len(),
            label_views(labels@) == before,
            forall|k: int| 0 <= k < i ==> text_lt(#[trigger] before[k], label@),
            i < labels@.len() ==> !text_lt(before[i as int], label@),
        decreases labels@.len() - i,
    {
        assert(before[i as int] == labels@[i as int]@);
        if !text_less(labels[i].as_str(), label.as_str()) {
            break;
        }
        i = i + 1;
    }
    if i < labels.len() && labels[i] == *label {
        assert(before[i as int] == label@);
        assert(before.to_set() =~= before.to_set().insert(label@));
        return;
    }
    proof {
        if i < labels@.len() {
            assert(before[i as int] == labels@[i as int]@);
            lemma_text_lt_total(before[i as int], label@);
            assert(text_lt(label@, before[i as int]));
        }
    }
    labels.insert(i, label.clone());
    proof {
        let after = label_views(labels@);
        assert(after =~= before.insert(i as int, label@));
        assert forall|a: int, b: int| 0 <= a < b < after.len() implies text_lt(#[trigger] after[a], #[trigger] after[b]) by {
            if b < i {
            } else if b == i {
                assert(after[a] == before[a]);
            } else if a < i {
                assert(after[a] == before[a]);
                assert(after[b] == before[b - 1]);
                if b - 1 > i {
                    assert(text_lt(before[i as int], before[b - 1]));
                    lemma_text_lt_transitive(label@, before[i as int], before[b - 1]);
                }
                lemma_text_lt_transitive(before[a], label@, before[b - 1]);
            } else if a == i {
                assert(after[b] == before[b - 1]);
                if b - 1 > i {
                    assert(text_lt(before[i as int], before[b - 1]));
                    lemma_text_lt_transitive(label@, before[i as int], before[b - 1]);
                }
            } else {
                assert(after[a] == before[a - 1]);
                assert(after[b] == before[b - 1]);
            }
        }
        assert(after.to_set() =~= before.to_set().insert(label@)) by {
            assert forall|x: Seq<char>| after.to_set().contains(x) <==> before.to_set().insert(label@).contains(x) by {
                if after.contains(x) {
                    let k = choose|k: int| 0 <= k < after.len() && after[k] == x;
                    if k < i {
                        assert(before[k] == x);
                    } else if k > i {
                        assert(before[k - 1] == x);
                    }
                }
                if before.contains(x) {
                    let k = choose|k: int| 0 <= k < before.len() && before[k] == x;
                    if k < i {
                        assert(after[k] == x);
                    } else {
                        assert(after[k + 1] == x);
                    }
                }
                if x == label@ {
                    assert(after[i as int] == x);
                }
            }
        }
    }
}


/// Position of `label` in a list that holds it.
fn find_label(labels: &Vec<String>, label: &String) -> (i: usize)
    requires
        label_views(labels@).contains(label@),
    ensures
        i < labels@.len(),
        labels@[i as int]@ == label@,
{
    let ghost views = label_views(labels@);
    let mut i: usize = 0;
    while i < labels.len()
        invariant
            i <= labels@.len(),
            views == label_views(labels@),
            views.contains(label@),
            forall|k: int| 0 <= k < i ==> (#[trigger] views[k]) != label@,
        decreases labels@.len() - i,
    {
        assert(views[i as int] == labels@[i as int]@);
        if labels[i] == *label {
            return i;
        }
        i = i + 1;
    }
    proof {
        let k = choose|k: int| 0 <= k < views.len() && views[k] == label@;
        assert(views[k] != label@);
    }
    0
}

/// Indexes the cities of a set of directed edges given by their labels.
///
/// The labels are numbered in lexicographic order; each edge becomes the
/// pair of its endpoints' numbers. With no edge, the error names the record
/// keys that were looked for; when some ordered pair of two different
/// cities has no edge, the edges do not define a complete distance matrix.
pub fn index_tsp_edges(edges: &Vec<(String, String)>, from_key: &str, to_key: &str, distance_key: &str) -> (r:
    Result<(Vec<String>, Vec<(usize, usize)>), String>)
    ensures
        edges@.len() == 0 ==> (r matches Err(e) && e@ == no_edges_message(from_key@, to_key@, distance_key@)),
        edges@.len() > 0 && !edges_complete(edges@) ==> (r matches Err(e) && e@
            == "TSP edge set does not define a complete distance matrix"@),
        r is Ok <==> (edges@.len() > 0 && edges_complete(edges@)),
        r matches Ok((labels, pairs)) ==> {
            &&& strictly_sorted(label_views(labels@))
            &&& label_views(labels@).to_set() == edge_label_set(edges@)
            &&& pairs@.len() == edges@.len()
            &&& forall|k: int|
                0 <= k < pairs@.len() ==> {
                    &&& (#[trigger] pairs@[k]).0 < labels@.len()
                    &&& pairs@[k].1 < labels@.len()
                    &&& labels@[pairs@[k].0 as int]@ == edges@[k].0@
                    &&& labels@[pairs@[k].1 as int]@ == edges@[k].1@
                }
        },
{
    if edges.len() == 0 {
        let mut chars: Vec<char> = Vec::new();
        push_str(&mut chars, "No valid edges found. Ensure keys '");
        push_str(&mut chars, from_key);
        push_str(&mut chars, "', '");
        push_str(&mut chars, to_key);
        push_str(&mut chars, "' and '");
        push_str(&mut chars, distance_key);
        push_str(&mut chars, "' exist and distance is numeric");
        return Err(string_from_chars(&chars));
    }
    let mut labels: Vec<String> = Vec::new();
    let mut k: usize = 0;
    while k < edges.len()
        invariant
            k <= edges@.len(),
            strictly_sorted(label_views(labels@)),
            label_views(labels@).to_set() == edge_label_set(edges@.take(k as int)),
        decreases edges@.len() - k,
    {
        let ghost prev = label_views(labels@).to_set();
        insert_label(&mut labels, &edges[k].0);
        insert_label(&mut labels, &edges[k].1);
        proof {
            let e = edges@.take(k + 1);
            assert(edge_label_set(e) =~= edge_label_set(edges@.take(k as int)).insert(edges@[k as int].0@).insert(
                edges@[k as int].1@,
            )) by {
                assert forall|l: Seq<char>| edge_label_set(e).contains(l) <==> edge_label_set(edges@.take(k as int)).insert(
                    edges@[k as int].0@,
                ).insert(edges@[k as int].1@).contains(l) by {
                    let t = edges@.take(k as int);
                    if edge_label_set(e).contains(l) {
                        let j = choose|j: int| 0 <= j < e.len() && #[trigger] edge_has_label(e[j], l);
                        if j < k {
                            assert(t[j] == e[j]);
                            assert(edge_has_label(t[j], l));
                        } else {
                            assert(e[j] == edges@[k as int]);
                        }
                    }
                    if edge_label_set(t).contains(l) {
                        let j = choose|j: int| 0 <= j < t.len() && #[trigger] edge_has_label(t[j], l);
                        assert(e[j] == t[j]);
                        assert(edge_has_label(e[j], l));
                    }
                    if l == edges@[k as int].0@ || l == edges@[k as int].1@ {
                        assert(e[k as int] == edges@[k as int]);
                        assert(edge_has_label(e[k as int], l));
                    }
                }
            }
        }
        k = k + 1;
    }
    assert(edges@.take(edges@.len() as int) =~= edges@);
    let ghost views = label_views(labels@);
    let mut pairs: Vec<(usize, usize)> = Vec::new();
    let mut k: usize = 0;
    while k < edges.len()
        invariant
            k <= edges@.len(),
            views == label_views(labels@),
            strictly_sorted(views),
            views.to_set() == edge_label_set(edges@),
            pairs@.len() == k,
            forall|j: int|
                0 <= j < k ==> {
                    &&& (#[trigger] pairs@[j]).0 < labels@.len()
                    &&& pairs@[j].1 < labels@.len()
                    &&& labels@[pairs@[j].0 as int]@ == edges@[j].0@
                    &&& labels@[pairs@[j].1 as int]@ == edges@[j].1@
                },
        decreases edges@.len() - k,
    {
        proof {
            assert(edge_has_label(edges@[k as int], edges@[k as int].0@));
            assert(edge_has_label(edges@[k as int], edges@[k as int].1@));
            assert(edge_label_set(edges@).contains(edges@[k as int].0@));
            assert(edge_label_set(edges@).contains(edges@[k as int].1@));
        }
        let a = find_label(&labels, &edges[k].0);
        let b = find_label(&labels, &edges[k].1);
        pairs.push((a, b));
        k = k + 1;
    }
    let n = labels.len();
    assert(strictly_sorted(views));
    let mut seen: Vec<Vec<bool>> = Vec::new();
    let mut i: usize = 0;
    while i < n
        invariant
            i <= n,
            seen@.len() == i,
            forall|a: int| 0 <= a < i ==> (#[trigger] seen@[a])@ == Seq::new(n as nat, |b: int| false),
        decreases n - i,
    {
        let mut row: Vec<bool> = Vec::new();
        let mut j: usize = 0;
        while j < n
            invariant
                j <= n,
                row@ == Seq::new(j as nat, |b: int| false),
            decreases n - j,
        {
            row.push(false);
            j = j + 1;
            assert(row@ =~= Seq::new(j as nat, |b: int| false));
        }
        seen.push(row);
        i = i + 1;
    }
    let mut k: usize = 0;
    while k < pairs.len()
        invariant
            k <= pairs@.len(),
            n == labels@.len(),
            seen@.len() == n,
            forall|a: int| 0 <= a < n ==> (#[trigger] seen@[a])@.len() == n,
            views == label_views(labels@),
            strictly_sorted(views),
            views.to_set() == edge_label_set(edges@),
            pairs@.len() == edges@.len(),
            forall|q: int|
                0 <= q < pairs@.len() ==> {
                    &&& (#[trigger] pairs@[q]).0 < labels@.len()
                    &&& pairs@[q].1 < labels@.len()
                    &&& labels@[pairs@[q].0 as int]@ == edges@[q].0@
                    &&& labels@[pairs@[q].1 as int]@ == edges@[q].1@
                },
            forall|a: int, b: int|
                0 <= a < n && 0 <= b < n ==> (seen@[a]@[b] <==> exists|j: int|
                    0 <= j < k && #[trigger] pairs@[j] == (a as usize, b as usize)),
        decreases pairs@.len() - k,
    {
        let (a, b) = pairs[k];
        let mut row = seen[a].clone();
        row.set(b, true);
        seen.set(a, row);
        proof {
            assert forall|x: int, y: int|
                0 <= x < n && 0 <= y < n implies (seen@[x]@[y] <==> exists|j: int|
                    0 <= j < k + 1 && #[trigger] pairs@[j] == (x as usize, y as usize)) by {
                if x == a && y == b {
                    assert(pairs@[k as int] == (x as usize, y as usize));
                }
            }
        }
        k = k + 1;
    }
    let mut i: usize = 0;
    while i < n
        invariant
            i <= n,
            n == labels@.len(),
            seen@.len() == n,
            forall|a: int| 0 <= a < n ==> (#[trigger] seen@[a])@.len() == n,
            views == label_views(labels@),
            strictly_sorted(views),
            views.to_set() == edge_label_set(edges@),
            pairs@.len() == edges@.len(),
            forall|q: int|
                0 <= q < pairs@.len() ==> {
                    &&& (#[trigger] pairs@[q]).0 < labels@.len()
                    &&& pairs@[q].1 < labels@.len()
                    &&& labels@[pairs@[q].0 as int]@ == edges@[q].0@
                    &&& labels@[pairs@[q].1 as int]@ == edges@[q].1@
                },
            forall|a: int, b: int|
                0 <= a < n && 0 <= b < n ==> (seen@[a]@[b] <==> exists|q: int|
                    0 <= q < pairs@.len() && #[trigger] pairs@[q] == (a as usize, b as usize)),
            forall|a: int, b: int| 0 <= a < i && 0 <= b < n && a != b ==> seen@[a]@[b],
        decreases n - i,
    {
        let mut j: usize = 0;
        while j < n
            invariant
                i < n,
                j <= n,
                n == labels@.len(),
                seen@.len() == n,
                forall|a: int| 0 <= a < n ==> (#[trigger] seen@[a])@.len() == n,
                views == label_views(labels@),
                strictly_sorted(views),
                views.to_set() == edge_label_set(edges@),
                pairs@.len() == edges@.len(),
                forall|q: int|
                    0 <= q < pairs@.len() ==> {
                        &&& (#[trigger] pairs@[q]).0 < labels@.len()
                        &&& pairs@[q].1 < labels@.len()
                        &&& labels@[pairs@[q].0 as int]@ == edges@[q].0@
                        &&& labels@[pairs@[q].1 as int]@ == edges@[q].1@
                    },
                forall|a: int, b: int|
                    0 <= a < n && 0 <= b < n ==> (seen@[a]@[b] <==> exists|q: int|
                        0 <= q < pairs@.len() && #[trigger] pairs@[q] == (a as usize, b as usize)),
                forall|a: int, b: int| 0 <= a < i && 0 <= b < n && a != b ==> seen@[a]@[b],
                forall|b: int| 0 <= b < j && i != b ==> seen@[i as int]@[b],
            decreases n - j,
        {
            if i != j && !seen[i][j] {
                proof {
                    lemma_incomplete_edges(edges@, labels@, pairs@, i as int, j as int);
                }
                let mut chars: Vec<char> = Vec::new();
                push_str(&mut chars, "TSP edge set does not define a complete distance matrix");
                return Err(string_from_chars(&chars));
            }
            j = j + 1;
        }
        i = i + 1;
    }
    proof {
        lemma_complete_edges(edges@, labels@, pairs@, seen@);
    }
    Ok((labels, pairs))
}


/// Two positions of a strictly sorted list hold different texts.
proof fn lemma_sorted_distinct(views: Seq<Seq<char>>, a: int, b: int)
    requires
        strictly_sorted(views),
        0 <= a < views.len(),
        0 <= b < views.len(),
        a != b,
    ensures
        views[a] != views[b],
{
    lemma_text_lt_total(views[a], views[a]);
    if a < b {
        assert(text_lt(views[a], views[b]));
    } else {
        assert(text_lt(views[b], views[a]));
    }
}

proof fn lemma_incomplete_edges(edges: Seq<(String, String)>, labels: Seq<String>, pairs: Seq<(usize, usize)>, i: int, j: int)
    requires
        labels.len() <= usize::MAX,
        strictly_sorted(label_views(labels)),
        label_views(labels).to_set() == edge_label_set(edges),
        pairs.len() == edges.len(),
        forall|q: int|
            0 <= q < pairs.len() ==> {
                &&& (#[trigger] pairs[q]).0 < labels.len()
                &&& pairs[q].1 < labels.len()
                &&& labels[pairs[q].0 as int]@ == edges[q].0@
                &&& labels[pairs[q].1 as int]@ == edges[q].1@
            },
        0 <= i < labels.len(),
        0 <= j < labels.len(),
        i != j,
        !exists|q: int| 0 <= q < pairs.len() && #[trigger] pairs[q] == (i as usize, j as usize),
    ensures
        !edges_complete(edges),
{
    let views = label_views(labels);
    let a = labels[i]@;
    let b = labels[j]@;
    assert(views[i] == a && views[j] == b);
    assert(views.to_set().contains(a));
    assert(views.to_set().contains(b));
    lemma_sorted_distinct(views, i, j);
    if edges_complete(edges) {
        assert(edge_label_set(edges).contains(a) && edge_label_set(edges).contains(b));
        let q = choose|q: int| 0 <= q < edges.len() && #[trigger] edges[q].0@ == a && edges[q].1@ == b;
        let (p0, p1) = pairs[q];
        assert(views[p0 as int] == a);
        assert(views[p1 as int] == b);
        if p0 as int != i {
            lemma_sorted_distinct(views, p0 as int, i);
        }
        if p1 as int != j {
            lemma_sorted_distinct(views, p1 as int, j);
        }
        assert(pairs[q] == (i as usize, j as usize));
    }
}

proof fn lemma_complete_edges(edges: Seq<(String, String)>, labels: Seq<String>, pairs: Seq<(usize, usize)>, seen: Seq<Vec<bool>>)
    requires
        labels.len() <= usize::MAX,
        label_views(labels).to_set() == edge_label_set(edges),
        pairs.len() == edges.len(),
        forall|q: int|
            0 <= q < pairs.len() ==> {
                &&& (#[trigger] pairs[q]).0 < labels.len()
                &&& pairs[q].1 < labels.len()
                &&& labels[pairs[q].0 as int]@ == edges[q].0@
                &&& labels[pairs[q].1 as int]@ == edges[q].1@
            },
        seen.len() == labels.len(),
        forall|a: int, b: int|
            0 <= a < labels.len() && 0 <= b < labels.len() ==> (seen[a]@[b] <==> exists|q: int|
                0 <= q < pairs.len() && #[trigger] pairs[q] == (a as usize, b as usize)),
        forall|a: int, b: int| 0 <= a < labels.len() && 0 <= b < labels.len() && a != b ==> seen[a]@[b],
    ensures
        edges_complete(edges),
{
    let views = label_views(labels);
    assert forall|a: Seq<char>, b: Seq<char>|
        edge_label_set(edges).contains(a) && edge_label_set(edges).contains(b) && a != b implies exists|q: int|
            0 <= q < edges.len() && #[trigger] edges[q].0@ == a && edges[q].1@ == b by {
        assert(views.to_set().contains(a));
        assert(views.to_set().contains(b));
        let i = choose|i: int| 0 <= i < views.len() && views[i] == a;
        let j = choose|j: int| 0 <= j < views.len() && views[j] == b;
        assert(seen[i]@[j]);
        let q = choose|q: int| 0 <= q < pairs.len() && #[trigger] pairs[q] == (i as usize, j as usize);
        assert(pairs[q].0 as int == i && pairs[q].1 as int == j);
        assert(edges[q].0@ == labels[i]@);
        assert(edges[q].1@ == labels[j]@);
    }
}

} // verus!
