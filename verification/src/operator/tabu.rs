//! Short-term memory for tabu search: signatures with expiration
//! iterations, and the policies that decide which signature stands for a
//! solution or a move.
use vstd::prelude::*;
use crate::operator::Operator;
use crate::solution::Solution;
use crate::text::{decimal, push_decimal, push_str, string_from_chars};

verus! {

/// The signatures held by an entry list, with their expiration iterations;
/// a later entry for a signature overrides an earlier one.
pub open spec fn entries_view(entries: Seq<(String, usize)>) -> Map<Seq<char>, usize>
    decreases entries.len(),
{
    if entries.len() == 0 {
        Map::empty()
    } else {
        entries_view(entries.drop_last()).insert(entries.last().0@, entries.last().1)
    }
}

/// No signature occurs twice in the entry list.
pub open spec fn keys_distinct(entries: Seq<(String, usize)>) -> bool {
    forall|i: int, j: int| 0 <= i < j < entries.len() ==> (#[trigger] entries[i]).0@ != (#[trigger] entries[j]).0@
}

proof fn lemma_entries_view_lookup(entries: Seq<(String, usize)>, i: int)
    requires
        keys_distinct(entries),
        0 <= i < entries.len(),
    ensures
        entries_view(entries).contains_key(entries[i].0@),
        entries_view(entries)[entries[i].0@] == entries[i].1,
    decreases entries.len(),
{
    if i < entries.len() - 1 {
        lemma_entries_view_lookup(entries.drop_last(), i);
    }
}

proof fn lemma_entries_view_keys(entries: Seq<(String, usize)>, k: Seq<char>)
    ensures
        entries_view(entries).contains_key(k) <==> exists|i: int| 0 <= i < entries.len() && (#[trigger] entries[i]).0@ == k,
    decreases entries.len(),
{
    if entries.len() > 0 {
        lemma_entries_view_keys(entries.drop_last(), k);
        if entries_view(entries.drop_last()).contains_key(k) {
            let i = choose|i: int| 0 <= i < entries.len() - 1 && (#[trigger] entries.drop_last()[i]).0@ == k;
            assert(entries[i].0@ == k);
        }
        if exists|i: int| 0 <= i < entries.len() && (#[trigger] entries[i]).0@ == k {
            let i = choose|i: int| 0 <= i < entries.len() && (#[trigger] entries[i]).0@ == k;
            if i < entries.len() - 1 {
                assert(entries.drop_last()[i].0@ == k);
            }
        }
    }
}

/// Table from signatures to numbers. Tabu memories store, for each
/// signature of a recently visited solution or move, the iteration at which
/// it stops being tabu; the frequency memory stores visit counts.
pub struct SignatureTable {
    entries: Vec<(String, usize)>,
}

impl SignatureTable {
    /// The signatures and the numbers stored for them.
    pub closed spec fn view(&self) -> Map<Seq<char>, usize> {
        entries_view(self.entries@)
    }

    /// Internal consistency: each signature is stored once.
    pub closed spec fn wf(&self) -> bool {
        keys_distinct(self.entries@)
    }

    /// An empty table.
    pub fn new() -> (r: Self)
        ensures
            r.wf(),
            r.view() == Map::<Seq<char>, usize>::empty(),
    {
        SignatureTable { entries: Vec::new() }
    }

    /// Number of stored signatures.
    pub fn len(&self) -> (n: usize)
        requires
            self.wf(),
        ensures
            n == self.view().dom().len(),
    {
        proof {
            self.lemma_len();
        }
        self.entries.len()
    }

    /// Whether no signature is stored.
    pub fn is_empty(&self) -> (b: bool)
        requires
            self.wf(),
        ensures
            b == (self.view().dom().len() == 0),
    {
        self.len() == 0
    }

    proof fn lemma_len(&self)
        requires
            self.wf(),
        ensures
            self.view().dom().finite(),
            self.view().dom().len() == self.entries@.len(),
    {
        lemma_distinct_entries_len(self.entries@);
    }

    fn position(&self, signature: &String) -> (r: Option<usize>)
        requires
            self.wf(),
        ensures
            r matches Some(i) ==> i < self.entries@.len() && self.entries@[i as int].0@ == signature@,
            r is None ==> !self.view().contains_key(signature@),
    {
        let mut i: usize = 0;
        while i < self.entries.len()
            invariant
                i <= self.entries@.len(),
                forall|k: int| 0 <= k < i ==> (#[trigger] self.entries@[k]).0@ != signature@,
            decreases self.entries@.len() - i,
        {
            if self.entries[i].0 == *signature {
                return Some(i);
            }
            i = i + 1;
        }
        proof {
            lemma_entries_view_keys(self.entries@, signature@);
        }
        None
    }

    /// The number stored for `signature`, if any.
    pub fn get(&self, signature: &String) -> (r: Option<usize>)
        requires
            self.wf(),
        ensures
            r == (if self.view().contains_key(signature@) {
                Some(self.view()[signature@])
            } else {
                None
            }),
    {
        match self.position(signature) {
            Some(i) => {
                proof {
                    lemma_entries_view_lookup(self.entries@, i as int);
                }
                Some(self.entries[i].1)
            },
            None => None,
        }
    }

    /// Whether `signature` is still tabu at `iteration`: stored with a
    /// number (its expiration iteration) strictly after it.
    pub fn is_tabu(&self, signature: &String, iteration: usize) -> (b: bool)
        requires
            self.wf(),
        ensures
            b == (self.view().contains_key(signature@) && self.view()[signature@] > iteration),
    {
        match self.get(signature) {
            Some(e) => e > iteration,
            None => false,
        }
    }

    /// Stores `value` for `signature`, replacing any earlier number for it.
    pub fn insert(&mut self, signature: String, value: usize)
        requires
            old(self).wf(),
        ensures
            final(self).wf(),
            final(self).view() == old(self).view().insert(signature@, value),
    {
        let ghost key = signature@;
        match self.position(&signature) {
            Some(i) => {
                let ghost before = self.entries@;
                self.entries.set(i, (signature, value));
                proof {
                    assert(keys_distinct(self.entries@));
                    assert forall|k: Seq<char>| #[trigger] entries_view(self.entries@).contains_key(k) <==> entries_view(before).insert(key, value).contains_key(k) by {
                        lemma_entries_view_keys(self.entries@, k);
                        lemma_entries_view_keys(before, k);
                        if k == key {
                            assert(self.entries@[i as int].0@ == key);
                        }
                        if k != key && entries_view(before).contains_key(k) {
                            let j = choose|j: int| 0 <= j < before.len() && (#[trigger] before[j]).0@ == k;
                            assert(self.entries@[j].0@ == k);
                        }
                        if entries_view(self.entries@).contains_key(k) && k != key {
                            let j = choose|j: int| 0 <= j < self.entries@.len() && (#[trigger] self.entries@[j]).0@ == k;
                            assert(before[j].0@ == k);
                        }
                    }
                    assert forall|k: Seq<char>| #[trigger] entries_view(self.entries@).contains_key(k) implies entries_view(self.entries@)[k] == entries_view(before).insert(key, value)[k] by {
                        lemma_entries_view_keys(self.entries@, k);
                        let j = choose|j: int| 0 <= j < self.entries@.len() && (#[trigger] self.entries@[j]).0@ == k;
                        lemma_entries_view_lookup(self.entries@, j);
                        if k != key {
                            lemma_entries_view_lookup(before, j);
                        }
                    }
                    assert(entries_view(self.entries@) =~= entries_view(before).insert(key, value));
                }
            },
            None => {
                let ghost before = self.entries@;
                self.entries.push((signature, value));
                proof {
                    assert(self.entries@.drop_last() == before);
                    assert forall|i: int, j: int| 0 <= i < j < self.entries@.len() implies (#[trigger] self.entries@[i]).0@ != (#[trigger] self.entries@[j]).0@ by {
                        if j == self.entries@.len() - 1 {
                            lemma_entries_view_keys(before, key);
                            assert(before[i].0@ == self.entries@[i].0@);
                        } else {
                            assert(before[i] == self.entries@[i] && before[j] == self.entries@[j]);
                        }
                    }
                }
            },
        }
    }

    /// Removes the signatures that are no longer tabu at `iteration` (those
    /// whose expiration iteration is not after it).
    pub fn purge_expired(&mut self, iteration: usize)
        requires
            old(self).wf(),
        ensures
            final(self).wf(),
            final(self).view() == old(self).view().restrict(
                old(self).view().dom().filter(|k: Seq<char>| old(self).view()[k] > iteration),
            ),
    {
        let ghost before = self.entries@;
        let mut kept: Vec<(String, usize)> = Vec::new();
        let ghost mut origin: Seq<int> = Seq::empty();
        let mut i: usize = 0;
        while i < self.entries.len()
            invariant
                i <= before.len(),
                self.entries@ == before,
                keys_distinct(before),
                kept@.len() == origin.len(),
                forall|k: int|
                    0 <= k < origin.len() ==> 0 <= #[trigger] origin[k] < i && kept@[k] == before[origin[k]]
                        && before[origin[k]].1 > iteration,
                forall|a: int, b: int| 0 <= a < b < origin.len() ==> #[trigger] origin[a] < #[trigger] origin[b],
                forall|j: int| 0 <= j < i && (#[trigger] before[j]).1 > iteration ==> exists|k: int| 0 <= k < origin.len() && origin[k] == j,
            decreases before.len() - i,
        {
            if self.entries[i].1 > iteration {
                let sig = self.entries[i].0.clone();
                let e = self.entries[i].1;
                kept.push((sig, e));
                proof {
                    let old_origin = origin;
                    origin = origin.push(i as int);
                    assert forall|j: int| 0 <= j < i + 1 && (#[trigger] before[j]).1 > iteration implies exists|k: int| 0 <= k < origin.len() && origin[k] == j by {
                        if j < i {
                            let k = choose|k: int| 0 <= k < old_origin.len() && old_origin[k] == j;
                            assert(origin[k] == j);
                        } else {
                            assert(origin[origin.len() - 1] == j);
                        }
                    }
                }
            }
            i = i + 1;
        }
        proof {
            assert forall|a: int, b: int| 0 <= a < b < kept@.len() implies (#[trigger] kept@[a]).0@ != (#[trigger] kept@[b]).0@ by {
                assert(origin[a] < origin[b]);
            }
        }
        let ghost old_view = entries_view(before);
        proof {
            let target = old_view.restrict(old_view.dom().filter(|k: Seq<char>| old_view[k] > iteration));
            assert forall|key: Seq<char>| #[trigger] entries_view(kept@).contains_key(key) <==> target.contains_key(key) by {
                lemma_entries_view_keys(kept@, key);
                lemma_entries_view_keys(before, key);
                if entries_view(kept@).contains_key(key) {
                    let k = choose|k: int| 0 <= k < kept@.len() && (#[trigger] kept@[k]).0@ == key;
                    lemma_entries_view_lookup(before, origin[k]);
                }
                if target.contains_key(key) {
                    let j = choose|j: int| 0 <= j < before.len() && (#[trigger] before[j]).0@ == key;
                    lemma_entries_view_lookup(before, j);
                    let k = choose|k: int| 0 <= k < origin.len() && origin[k] == j;
                    assert(kept@[k].0@ == key);
                }
            }
            assert forall|key: Seq<char>| #[trigger] entries_view(kept@).contains_key(key) implies entries_view(kept@)[key] == target[key] by {
                lemma_entries_view_keys(kept@, key);
                let k = choose|k: int| 0 <= k < kept@.len() && (#[trigger] kept@[k]).0@ == key;
                lemma_entries_view_lookup(before, origin[k]);
                lemma_entries_view_lookup(kept@, k);
            }
            assert(entries_view(kept@) =~= target);
        }
        self.entries = kept;
    }
}

/// A list without repeated signatures stores as many signatures as entries.
proof fn lemma_distinct_entries_len(entries: Seq<(String, usize)>)
    requires
        keys_distinct(entries),
    ensures
        entries_view(entries).dom().finite(),
        entries_view(entries).dom().len() == entries.len(),
    decreases entries.len(),
{
    if entries.len() > 0 {
        let rest = entries.drop_last();
        assert(keys_distinct(rest));
        lemma_distinct_entries_len(rest);
        lemma_entries_view_keys(rest, entries.last().0@);
        assert(!entries_view(rest).contains_key(entries.last().0@));
        assert(entries_view(entries).dom() =~= entries_view(rest).dom().insert(entries.last().0@));
    }
}


/// Text of the signature of a swap of positions `i` and `j`:
/// `swap:<lo>:<hi>` with `lo <= hi`.
pub open spec fn swap_signature_text(i: nat, j: nat) -> Seq<char> {
    let lo = if i < j { i } else { j };
    let hi = if i < j { j } else { i };
    "swap:"@ + decimal(lo) + ":"@ + decimal(hi)
}

/// Positions, in increasing order, at which `a` and `b` hold different
/// values (over the length of `a`).
pub open spec fn differing_positions(a: Seq<usize>, b: Seq<usize>) -> Seq<int> {
    Seq::new(a.len(), |i: int| i).filter(|i: int| a[i] != b[i])
}

/// Signature of the move from `from` to `to`: the swap signature when the two
/// solutions have the same length and differ in exactly two positions, and
/// `full` (the signature of `to` as a whole) otherwise.
pub open spec fn move_signature(from: Seq<usize>, to: Seq<usize>, full: Seq<char>) -> Seq<char> {
    let d = differing_positions(from, to);
    if from.len() == to.len() && d.len() == 2 {
        swap_signature_text(d[0] as nat, d[1] as nat)
    } else {
        full
    }
}

/// Default tabu policy: a solution is represented by its full signature.
pub struct SolutionTabuMemory {}

impl SolutionTabuMemory {
    /// Creates the policy.
    pub fn new() -> Self {
        SolutionTabuMemory {}
    }

    /// Initial memory: the starting solution's signature, tabu until
    /// `iteration + tabu_tenure`.
    pub fn initialize_memory(&self, signature: String, iteration: usize, tabu_tenure: usize) -> (r: SignatureTable)
        requires
            iteration + tabu_tenure <= usize::MAX,
        ensures
            r.wf(),
            r.view() == Map::<Seq<char>, usize>::empty().insert(signature@, (iteration + tabu_tenure) as usize),
    {
        let mut memory = SignatureTable::new();
        self.remember(&mut memory, signature, iteration, tabu_tenure);
        memory
    }

    /// Removes the entries that are no longer tabu at `iteration`.
    pub fn purge_expired(&self, memory: &mut SignatureTable, iteration: usize)
        requires
            old(memory).wf(),
        ensures
            final(memory).wf(),
            final(memory).view() == old(memory).view().restrict(
                old(memory).view().dom().filter(|k: Seq<char>| old(memory).view()[k] > iteration),
            ),
    {
        memory.purge_expired(iteration);
    }

    /// Whether the solution with this signature is tabu at `iteration`.
    pub fn is_tabu(&self, memory: &SignatureTable, signature: &String, iteration: usize) -> (b: bool)
        requires
            memory.wf(),
        ensures
            b == (memory.view().contains_key(signature@) && memory.view()[signature@] > iteration),
    {
        memory.is_tabu(signature, iteration)
    }

    /// Makes the solution with this signature tabu until
    /// `iteration + tabu_tenure`.
    pub fn remember(&self, memory: &mut SignatureTable, signature: String, iteration: usize, tabu_tenure: usize)
        requires
            old(memory).wf(),
            iteration + tabu_tenure <= usize::MAX,
        ensures
            final(memory).wf(),
            final(memory).view() == old(memory).view().insert(signature@, (iteration + tabu_tenure) as usize),
    {
        memory.insert(signature, iteration + tabu_tenure);
    }
}

impl Operator for SolutionTabuMemory {
    fn name(&self) -> (r: &str)
        ensures
            r@ == "SolutionTabuMemory"@,
    {
        "SolutionTabuMemory"
    }
}

impl Default for SolutionTabuMemory {
    fn default() -> Self {
        Self::new()
    }
}

/// Attribute-based tabu policy for permutation solutions: a move that swaps
/// two positions is remembered by the pair of positions rather than by the
/// whole solution.
pub struct AttributeTabuMemory {}

impl AttributeTabuMemory {
    /// Creates the policy.
    pub fn new() -> Self {
        AttributeTabuMemory {}
    }

    /// Signature of the swap of positions `i` and `j`, the same for both
    /// orders: `swap:<lo>:<hi>`.
    pub fn swap_signature(i: usize, j: usize) -> (r: String)
        ensures
            r@ == swap_signature_text(i as nat, j as nat),
    {
        let (lo, hi) = if i < j { (i, j) } else { (j, i) };
        let mut chars: Vec<char> = Vec::new();
        push_str(&mut chars, "swap:");
        push_decimal(&mut chars, lo);
        push_str(&mut chars, ":");
        push_decimal(&mut chars, hi);
        string_from_chars(&chars)
    }

    /// Signature of the move from `from` to `to` (see [`move_signature`]);
    /// `full_signature` is the signature of `to` as a whole.
    pub fn detect_move_signature<Q>(from: &Solution<usize, Q>, to: &Solution<usize, Q>, full_signature: String) -> (r: String)
        ensures
            r@ == move_signature(from.spec_variables(), to.spec_variables(), full_signature@),
    {
        let a = from.variables();
        let b = to.variables();
        if a.len() != b.len() {
            return full_signature;
        }
        let ghost pred = |i: int| a@[i] != b@[i];
        let ghost idx = Seq::new(a@.len(), |i: int| i);
        let mut diffs: Vec<usize> = Vec::new();
        let mut i: usize = 0;
        assert(idx.take(0).filter(pred) =~= Seq::<int>::empty()) by {
            reveal(Seq::filter);
        }
        while i < a.len()
            invariant
                i <= a@.len(),
                a@.len() == b@.len(),
                pred == (|i: int| a@[i] != b@[i]),
                idx == Seq::new(a@.len(), |i: int| i),
                diffs@.map_values(|d: usize| d as int) == idx.take(i as int).filter(pred),
            decreases a@.len() - i,
        {
            proof {
                assert(idx.take(i + 1) =~= idx.take(i as int).push(i as int));
                idx.take(i as int).lemma_filter_push(i as int, pred);
            }
            if a[i] != b[i] {
                diffs.push(i);
                assert(diffs@.map_values(|d: usize| d as int) =~= idx.take(i as int).filter(pred).push(i as int));
            }
            i = i + 1;
        }
        assert(idx.take(a@.len() as int) =~= idx);
        if diffs.len() == 2 {
            assert(diffs@.map_values(|d: usize| d as int)[0] == diffs@[0] as int);
            assert(diffs@.map_values(|d: usize| d as int)[1] == diffs@[1] as int);
            Self::swap_signature(diffs[0], diffs[1])
        } else {
            full_signature
        }
    }

    /// Initial memory: empty, since no move has been made yet.
    pub fn initialize_memory(&self) -> (r: SignatureTable)
        ensures
            r.wf(),
            r.view() == Map::<Seq<char>, usize>::empty(),
    {
        SignatureTable::new()
    }

    /// Whether the solution with this full signature is tabu at `iteration`.
    pub fn is_tabu(&self, memory: &SignatureTable, full_signature: &String, iteration: usize) -> (b: bool)
        requires
            memory.wf(),
        ensures
            b == (memory.view().contains_key(full_signature@) && memory.view()[full_signature@] > iteration),
    {
        memory.is_tabu(full_signature, iteration)
    }

    /// Makes the solution with this full signature tabu until
    /// `iteration + tabu_tenure`.
    pub fn remember(&self, memory: &mut SignatureTable, full_signature: String, iteration: usize, tabu_tenure: usize)
        requires
            old(memory).wf(),
            iteration + tabu_tenure <= usize::MAX,
        ensures
            final(memory).wf(),
            final(memory).view() == old(memory).view().insert(full_signature@, (iteration + tabu_tenure) as usize),
    {
        memory.insert(full_signature, iteration + tabu_tenure);
    }

    /// Makes the move from `from` to `to` tabu until `iteration + tabu_tenure`,
    /// under its [`move_signature`]; `full_signature` is the signature of `to`.
    pub fn remember_move<Q>(
        &self,
        memory: &mut SignatureTable,
        from: &Solution<usize, Q>,
        to: &Solution<usize, Q>,
        full_signature: String,
        iteration: usize,
        tabu_tenure: usize,
    )
        requires
            old(memory).wf(),
            iteration + tabu_tenure <= usize::MAX,
        ensures
            final(memory).wf(),
            final(memory).view() == old(memory).view().insert(
                move_signature(from.spec_variables(), to.spec_variables(), full_signature@),
                (iteration + tabu_tenure) as usize,
            ),
    {
        let sig = Self::detect_move_signature(from, to, full_signature);
        memory.insert(sig, iteration + tabu_tenure);
    }

    /// Whether the move from `from` to `candidate` is tabu at `iteration`;
    /// `full_signature` is the signature of `candidate`.
    pub fn is_move_tabu<Q>(
        &self,
        memory: &SignatureTable,
        from: &Solution<usize, Q>,
        candidate: &Solution<usize, Q>,
        full_signature: String,
        iteration: usize,
    ) -> (b: bool)
        requires
            memory.wf(),
        ensures
            ({
                let sig = move_signature(from.spec_variables(), candidate.spec_variables(), full_signature@);
                b == (memory.view().contains_key(sig) && memory.view()[sig] > iteration)
            }),
    {
        let sig = Self::detect_move_signature(from, candidate, full_signature);
        memory.is_tabu(&sig, iteration)
    }
}

impl Operator for AttributeTabuMemory {
    fn name(&self) -> (r: &str)
        ensures
            r@ == "AttributeTabuMemory"@,
    {
        "AttributeTabuMemory"
    }
}

impl Default for AttributeTabuMemory {
    fn default() -> Self {
        Self::new()
    }
}

/// Number of recorded visits of `signature` in a table of visit counts.
pub open spec fn count_in(counts: Map<Seq<char>, usize>, signature: Seq<char>) -> nat {
    if counts.contains_key(signature) {
        counts[signature] as nat
    } else {
        0
    }
}

/// Frequency-based memory for long-term diversification: counts how often
/// each solution (by signature) has been visited. Its short-term tabu
/// behaviour is that of [`SolutionTabuMemory`].
pub struct FrequencyTabuMemory {
    frequency: SignatureTable,
}

impl FrequencyTabuMemory {
    /// Visit counts by signature.
    pub closed spec fn counts(&self) -> Map<Seq<char>, usize> {
        self.frequency.view()
    }

    /// Internal consistency of the count table.
    pub closed spec fn wf(&self) -> bool {
        self.frequency.wf()
    }

    /// A memory with no visit recorded.
    pub fn new() -> (r: Self)
        ensures
            r.wf(),
            r.counts() == Map::<Seq<char>, usize>::empty(),
    {
        FrequencyTabuMemory { frequency: SignatureTable::new() }
    }

    /// How many visits of `signature` were recorded (zero if none).
    pub fn visit_count(&self, signature: &String) -> (n: usize)
        requires
            self.wf(),
        ensures
            n == count_in(self.counts(), signature@),
    {
        match self.frequency.get(signature) {
            Some(c) => c,
            None => 0,
        }
    }

    /// Records one more visit of `signature`.
    pub fn record_visit(&mut self, signature: String)
        requires
            old(self).wf(),
            count_in(old(self).counts(), signature@) < usize::MAX,
        ensures
            final(self).wf(),
            final(self).counts() == old(self).counts().insert(
                signature@,
                (count_in(old(self).counts(), signature@) + 1) as usize,
            ),
    {
        let c = self.visit_count(&signature);
        self.frequency.insert(signature, c + 1);
    }

    /// Number of distinct signatures with a recorded visit.
    pub fn distinct_visits(&self) -> (n: usize)
        requires
            self.wf(),
        ensures
            n == self.counts().dom().len(),
    {
        self.frequency.len()
    }

    /// Forgets every recorded visit.
    pub fn reset(&mut self)
        ensures
            final(self).wf(),
            final(self).counts() == Map::<Seq<char>, usize>::empty(),
    {
        self.frequency = SignatureTable::new();
    }

    /// Initial tabu memory: the starting solution's signature, tabu until
    /// `iteration + tabu_tenure`.
    pub fn initialize_memory(&self, signature: String, iteration: usize, tabu_tenure: usize) -> (r: SignatureTable)
        requires
            iteration + tabu_tenure <= usize::MAX,
        ensures
            r.wf(),
            r.view() == Map::<Seq<char>, usize>::empty().insert(signature@, (iteration + tabu_tenure) as usize),
    {
        let mut memory = SignatureTable::new();
        self.remember(&mut memory, signature, iteration, tabu_tenure);
        memory
    }

    /// Whether the solution with this signature is tabu at `iteration`.
    pub fn is_tabu(&self, memory: &SignatureTable, signature: &String, iteration: usize) -> (b: bool)
        requires
            memory.wf(),
        ensures
            b == (memory.view().contains_key(signature@) && memory.view()[signature@] > iteration),
    {
        memory.is_tabu(signature, iteration)
    }

    /// Makes the solution with this signature tabu until
    /// `iteration + tabu_tenure`; visit counts are left to [`Self::record_visit`].
    pub fn remember(&self, memory: &mut SignatureTable, signature: String, iteration: usize, tabu_tenure: usize)
        requires
            old(memory).wf(),
            iteration + tabu_tenure <= usize::MAX,
        ensures
            final(memory).wf(),
            final(memory).view() == old(memory).view().insert(signature@, (iteration + tabu_tenure) as usize),
    {
        memory.insert(signature, iteration + tabu_tenure);
    }
}

impl Operator for FrequencyTabuMemory {
    fn name(&self) -> (r: &str)
        ensures
            r@ == "FrequencyTabuMemory"@,
    {
        "FrequencyTabuMemory"
    }
}

impl Default for FrequencyTabuMemory {
    fn default() -> (r: Self)
        ensures
            r.wf(),
            r.counts() == Map::<Seq<char>, usize>::empty(),
    {
        Self::new()
    }
}

/// Recording a visit adds exactly one to that signature's count and leaves
/// every other signature's count as it was.
pub proof fn lemma_record_visit_counts(counts: Map<Seq<char>, usize>, signature: Seq<char>, other: Seq<char>)
    requires
        count_in(counts, signature) < usize::MAX,
    ensures
        ({
            let after = counts.insert(signature, (count_in(counts, signature) + 1) as usize);
            &&& count_in(after, signature) == count_in(counts, signature) + 1
            &&& other != signature ==> count_in(after, other) == count_in(counts, other)
        }),
{
}

/// Visit counts after recording the visits `visits` in order into an empty
/// memory, each as [`FrequencyTabuMemory::record_visit`] records it.
pub open spec fn recorded_counts(visits: Seq<Seq<char>>) -> Map<Seq<char>, usize>
    decreases visits.len(),
{
    if visits.len() == 0 {
        Map::empty()
    } else {
        let prev = recorded_counts(visits.drop_last());
        prev.insert(visits.last(), (count_in(prev, visits.last()) + 1) as usize)
    }
}

/// How many times `x` occurs in `visits`.
pub open spec fn occurrences(visits: Seq<Seq<char>>, x: Seq<char>) -> nat
    decreases visits.len(),
{
    if visits.len() == 0 {
        0
    } else {
        occurrences(visits.drop_last(), x) + if visits.last() == x { 1nat } else { 0nat }
    }
}

proof fn lemma_occurrences_bound(visits: Seq<Seq<char>>, x: Seq<char>)
    ensures
        occurrences(visits, x) <= visits.len(),
    decreases visits.len(),
{
    if visits.len() > 0 {
        lemma_occurrences_bound(visits.drop_last(), x);
    }
}

/// From an empty memory, recording visits one after another counts each
/// signature exactly as often as it was visited, and holds exactly the
/// visited signatures; the distinct visits are those signatures.
pub proof fn lemma_recorded_counts(visits: Seq<Seq<char>>, x: Seq<char>)
    requires
        visits.len() <= usize::MAX,
    ensures
        count_in(recorded_counts(visits), x) == occurrences(visits, x),
        recorded_counts(visits).contains_key(x) <==> occurrences(visits, x) > 0,
    decreases visits.len(),
{
    if visits.len() > 0 {
        let rest = visits.drop_last();
        lemma_recorded_counts(rest, x);
        lemma_recorded_counts(rest, visits.last());
        lemma_occurrences_bound(rest, visits.last());
    }
}

/// A remembered move stays tabu exactly until its expiration: at any
/// iteration before `iteration + tabu_tenure` the same move is tabu, and from
/// then on it is not, whatever else the memory held.
pub proof fn lemma_remembered_move_tabu_until_expiry(
    memory: Map<Seq<char>, usize>,
    signature: Seq<char>,
    iteration: nat,
    tabu_tenure: nat,
    later: nat,
)
    requires
        iteration + tabu_tenure <= usize::MAX,
    ensures
        ({
            let after = memory.insert(signature, (iteration + tabu_tenure) as usize);
            (after.contains_key(signature) && after[signature] > later) <==> later < iteration + tabu_tenure
        }),
{
}

/// The positions `0..k` that satisfy `pred`, when `pred` holds exactly at
/// `p` and `q` (with `p < q`) below `n`.
proof fn lemma_positions_filter_two(pred: spec_fn(int) -> bool, n: int, p: int, q: int, k: int)
    requires
        0 <= p < q < n,
        0 <= k <= n,
        forall|i: int| 0 <= i < n ==> (#[trigger] pred(i) <==> (i == p || i == q)),
    ensures
        Seq::new(k as nat, |i: int| i).filter(pred) == if k <= p {
            Seq::<int>::empty()
        } else if k <= q {
            seq![p]
        } else {
            seq![p, q]
        },
    decreases k,
{
    if k == 0 {
        assert(Seq::new(0, |i: int| i) =~= Seq::<int>::empty());
        reveal(Seq::filter);
    } else {
        lemma_positions_filter_two(pred, n, p, q, k - 1);
        assert(Seq::new(k as nat, |i: int| i) =~= Seq::new((k - 1) as nat, |i: int| i).push(k - 1));
        Seq::new((k - 1) as nat, |i: int| i).lemma_filter_push(k - 1, pred);
        if k - 1 == q {
            assert(seq![p].push(q) =~= seq![p, q]);
        }
    }
}

/// A move between two solutions of the same length that differ at exactly
/// the positions `p` and `q` (`p < q`) has the signature of the swap of
/// those positions, whatever values they hold.
pub proof fn lemma_two_position_change_is_swap_signature(
    from: Seq<usize>,
    to: Seq<usize>,
    full: Seq<char>,
    p: int,
    q: int,
)
    requires
        from.len() == to.len(),
        0 <= p < q < from.len(),
        forall|k: int| 0 <= k < from.len() ==> (from[k] != to[k] <==> (k == p || k == q)),
    ensures
        move_signature(from, to, full) == swap_signature_text(p as nat, q as nat),
{
    let pred = |i: int| from[i] != to[i];
    lemma_positions_filter_two(pred, from.len() as int, p, q, from.len() as int);
    assert(differing_positions(from, to) == seq![p, q]);
}

/// Both orders of a swap have the same signature.
pub proof fn lemma_swap_signature_symmetric(i: nat, j: nat)
    ensures
        swap_signature_text(i, j) == swap_signature_text(j, i),
{
}

/// Purging the entries expired at `iteration` changes no tabu verdict at
/// that iteration or later: a signature is tabu in the purged memory
/// exactly when it was tabu before.
pub proof fn lemma_purge_keeps_tabu_verdicts(
    memory: Map<Seq<char>, usize>,
    signature: Seq<char>,
    iteration: usize,
    later: usize,
)
    requires
        iteration <= later,
    ensures
        ({
            let purged = memory.restrict(memory.dom().filter(|k: Seq<char>| memory[k] > iteration));
            (purged.contains_key(signature) && purged[signature] > later) <==> (memory.contains_key(signature)
                && memory[signature] > later)
        }),
{
}

} // verus!
