//! Symbolic dynamics: shift spaces, block counting and transition counting.

use vstd::prelude::*;

verus! {

/// Number of targets `to < k` such that the transition `(from, to)` does not
/// occur in `forbidden`.
pub open spec fn allowed_below(forbidden: Seq<(usize, usize)>, from: usize, k: nat) -> nat
    decreases k,
{
    if k == 0 {
        0
    } else {
        allowed_below(forbidden, from, (k - 1) as nat) + if forbidden.contains(
            (from, (k - 1) as usize),
        ) {
            0nat
        } else {
            1nat
        }
    }
}

/// Full shift space of n symbols, minus a list of forbidden transitions.
#[derive(Debug, Clone)]
pub struct ShiftSpace {
    pub n_symbols: usize,
    /// Forbidden transitions: (from_symbol, to_symbol)
    pub forbidden: Vec<(usize, usize)>,
}

impl ShiftSpace {
    /// Whether the transition `from -> to` is allowed: it is not in the
    /// forbidden list.
    pub open spec fn spec_is_allowed(&self, from: usize, to: usize) -> bool {
        !self.forbidden@.contains((from, to))
    }

    /// Number of symbols `to < n_symbols` reachable from `from` in one step.
    pub open spec fn spec_allowed_transitions(&self, from: usize) -> nat {
        allowed_below(self.forbidden@, from, self.n_symbols as nat)
    }

    /// Create a full shift on n symbols (no forbidden transitions).
    pub fn full(n: usize) -> (s: Self)
        ensures
            s.n_symbols == n,
            s.forbidden@ == Seq::<(usize, usize)>::empty(),
    {
        ShiftSpace { n_symbols: n, forbidden: Vec::new() }
    }

    /// Check if a transition is allowed.
    pub fn is_allowed(&self, from: usize, to: usize) -> (b: bool)
        ensures
            b == self.spec_is_allowed(from, to),
            !b <==> exists|j: int| 0 <= j < self.forbidden.len() && self.forbidden@[j] == (from, to),
    {
        let mut i: usize = 0;
        while i < self.forbidden.len()
            invariant
                0 <= i <= self.forbidden.len(),
                forall|j: int| 0 <= j < i ==> self.forbidden@[j] != (from, to),
            decreases self.forbidden.len() - i,
        {
            let (a, b) = self.forbidden[i];
            if a == from && b == to {
                assert(self.forbidden@[i as int] == (from, to));
                return false;
            }
            i = i + 1;
        }
        true
    }

    /// Count allowed transitions for a given symbol.
    pub fn allowed_transitions(&self, from: usize) -> (count: usize)
        ensures
            count == self.spec_allowed_transitions(from),
            count == Set::new(
                |to: usize|
                    to < self.n_symbols && !(exists|j: int|
                        0 <= j < self.forbidden.len() && self.forbidden@[j] == (from, to)),
            ).len(),
    {
        proof {
            lemma_allowed_below_counts_targets(self.forbidden@, from, self.n_symbols as nat);
            assert(Set::new(
                |to: usize|
                    to < self.n_symbols && !(exists|j: int|
                        0 <= j < self.forbidden.len() && self.forbidden@[j] == (from, to)),
            ) =~= allowed_targets(self.forbidden@, from, self.n_symbols as nat));
        }
        let mut count: usize = 0;
        let mut to: usize = 0;
        while to < self.n_symbols
            invariant
                to <= self.n_symbols,
                count == allowed_below(self.forbidden@, from, to as nat),
                count <= to,
            decreases self.n_symbols - to,
        {
            if self.is_allowed(from, to) {
                count = count + 1;
            }
            to = to + 1;
        }
        count
    }
}

/// The targets `to < k` such that `(from, to)` is not forbidden.
pub open spec fn allowed_targets(forbidden: Seq<(usize, usize)>, from: usize, k: nat) -> Set<usize> {
    Set::new(|to: usize| to < k && !forbidden.contains((from, to)))
}

/// The count of allowed transitions is the number of distinct symbols below
/// `k` to which `from` may step: the size of the set of allowed targets.
pub proof fn lemma_allowed_below_counts_targets(forbidden: Seq<(usize, usize)>, from: usize, k: nat)
    requires
        k <= usize::MAX + 1,
    ensures
        allowed_targets(forbidden, from, k).finite(),
        allowed_below(forbidden, from, k) == allowed_targets(forbidden, from, k).len(),
    decreases k,
{
    if k == 0 {
        assert(allowed_targets(forbidden, from, k) =~= Set::empty());
    } else {
        let k1 = (k - 1) as nat;
        lemma_allowed_below_counts_targets(forbidden, from, k1);
        let t = k1 as usize;
        let prev = allowed_targets(forbidden, from, k1);
        if forbidden.contains((from, t)) {
            assert(allowed_targets(forbidden, from, k) =~= prev);
        } else {
            assert(allowed_targets(forbidden, from, k) =~= prev.insert(t));
            assert(!prev.contains(t));
        }
    }
}

/// Forbidding the transition `a -> b` forbids exactly that transition: it is
/// no longer allowed, and every other transition, the reverse `b -> a` among
/// them, is allowed exactly when it was allowed before.
pub proof fn lemma_forbid_only_that_transition(
    s: ShiftSpace,
    t: ShiftSpace,
    a: usize,
    b: usize,
    from: usize,
    to: usize,
)
    requires
        t.n_symbols == s.n_symbols,
        t.forbidden@ == s.forbidden@.push((a, b)),
    ensures
        !t.spec_is_allowed(a, b),
        (from, to) != (a, b) ==> t.spec_is_allowed(from, to) == s.spec_is_allowed(from, to),
        a != b ==> t.spec_is_allowed(b, a) == s.spec_is_allowed(b, a),
{
    let f = s.forbidden@;
    let g = t.forbidden@;
    assert(g[f.len() as int] == (a, b));
    if (from, to) != (a, b) {
        if g.contains((from, to)) {
            let j = choose|j: int| 0 <= j < g.len() && g[j] == (from, to);
            assert(f[j] == (from, to));
        }
        if f.contains((from, to)) {
            let j = choose|j: int| 0 <= j < f.len() && f[j] == (from, to);
            assert(g[j] == (from, to));
        }
    }
    if a != b {
        if g.contains((b, a)) {
            let j = choose|j: int| 0 <= j < g.len() && g[j] == (b, a);
            assert(f[j] == (b, a));
        }
        if f.contains((b, a)) {
            let j = choose|j: int| 0 <= j < f.len() && f[j] == (b, a);
            assert(g[j] == (b, a));
        }
    }
}

/// At most `k` of the targets below `k` are allowed, whatever is forbidden.
pub proof fn lemma_allowed_below_bounded(forbidden: Seq<(usize, usize)>, from: usize, k: nat)
    ensures
        allowed_below(forbidden, from, k) <= k,
    decreases k,
{
    if k > 0 {
        lemma_allowed_below_bounded(forbidden, from, (k - 1) as nat);
    }
}

/// A shift space never allows more transitions from a symbol than it has
/// symbols.
pub proof fn lemma_allowed_transitions_bounded(s: ShiftSpace, from: usize)
    ensures
        s.spec_allowed_transitions(from) <= s.n_symbols,
{
    lemma_allowed_below_bounded(s.forbidden@, from, s.n_symbols as nat);
}

/// In a shift space without forbidden transitions (the full shift), every
/// transition is allowed and every symbol has exactly `n_symbols` successors.
pub proof fn lemma_full_shift(s: ShiftSpace, from: usize, to: usize)
    requires
        s.forbidden@.len() == 0,
    ensures
        s.spec_is_allowed(from, to),
        s.spec_allowed_transitions(from) == s.n_symbols,
{
    lemma_no_forbidden_all_allowed(s.forbidden@, from, s.n_symbols as nat);
}

proof fn lemma_no_forbidden_all_allowed(forbidden: Seq<(usize, usize)>, from: usize, k: nat)
    requires
        forbidden.len() == 0,
    ensures
        allowed_below(forbidden, from, k) == k,
    decreases k,
{
    if k > 0 {
        lemma_no_forbidden_all_allowed(forbidden, from, (k - 1) as nat);
    }
}

/// Forbidding one more transition `(a, b)` removes exactly one successor of
/// `a` when `b` is a symbol (`b < k`) and the transition was allowed before;
/// otherwise the count of allowed transitions does not change.
pub proof fn lemma_forbid_one_more(
    forbidden: Seq<(usize, usize)>,
    extra: (usize, usize),
    from: usize,
    k: nat,
)
    requires
        k <= usize::MAX + 1,
    ensures
        allowed_below(forbidden.push(extra), from, k) + (if extra.0 == from && extra.1 < k
            && !forbidden.contains(extra) {
            1nat
        } else {
            0nat
        }) == allowed_below(forbidden, from, k),
    decreases k,
{
    if k > 0 {
        lemma_forbid_one_more(forbidden, extra, from, (k - 1) as nat);
        let t = (from, (k - 1) as usize);
        let f2 = forbidden.push(extra);
        assert(f2.contains(t) <==> (forbidden.contains(t) || extra == t)) by {
            if f2.contains(t) {
                let j = choose|j: int| 0 <= j < f2.len() && f2[j] == t;
                if j < forbidden.len() {
                    assert(forbidden[j] == t);
                }
            }
            if forbidden.contains(t) {
                let j = choose|j: int| 0 <= j < forbidden.len() && forbidden[j] == t;
                assert(f2[j] == t);
            }
            if extra == t {
                assert(f2[forbidden.len() as int] == t);
            }
        }
    }
}

/// The blocks (windows) of length `k` of a sequence, in order of position:
/// `seq[i..i + k]` for every `i` with `i + k <= seq.len()`.
pub open spec fn blocks(seq: Seq<usize>, k: nat) -> Seq<Seq<usize>> {
    if k <= seq.len() {
        Seq::new((seq.len() - k + 1) as nat, |i: int| seq.subrange(i, i + k))
    } else {
        Seq::empty()
    }
}

/// The blocks of length `k` that start at the given positions.
pub open spec fn blocks_at(seq: Seq<usize>, starts: Seq<usize>, k: nat) -> Seq<Seq<usize>> {
    starts.map_values(|s: usize| seq.subrange(s as int, s + k))
}

/// The blocks of length `k` are exactly the windows `seq[i..i + k]`, one for
/// each start `i` with `i + k <= seq.len()`, in order.
pub proof fn lemma_blocks_are_windows(seq: Seq<usize>, k: nat)
    ensures
        blocks(seq, k).len() == if k <= seq.len() {
            seq.len() - k + 1
        } else {
            0
        },
        forall|i: int|
            0 <= i < blocks(seq, k).len() ==> #[trigger] blocks(seq, k)[i] =~= seq.subrange(i, i + k),
        forall|w: Seq<usize>|
            blocks(seq, k).contains(w) <==> exists|i: int|
                0 <= i && i + k <= seq.len() && w == #[trigger] seq.subrange(i, i + k),
{
    let all = blocks(seq, k);
    assert forall|w: Seq<usize>|
        all.contains(w) <==> exists|i: int| 0 <= i && i + k <= seq.len() && w == #[trigger] seq.subrange(i, i + k) by {
        if all.contains(w) {
            let j = choose|j: int| 0 <= j < all.len() && all[j] == w;
            assert(0 <= j && j + k <= seq.len() && w == seq.subrange(j, j + k));
        }
        if exists|i: int| 0 <= i && i + k <= seq.len() && w == #[trigger] seq.subrange(i, i + k) {
            let i = choose|i: int| 0 <= i && i + k <= seq.len() && w == #[trigger] seq.subrange(i, i + k);
            assert(all[i] == w);
        }
    }
}

/// Windows that differ in any position are distinct blocks: when the windows
/// of length `k` are pairwise different, each of the `seq.len() - k + 1`
/// windows counts as a block of its own.
pub proof fn lemma_distinct_windows_all_count(seq: Seq<usize>, k: nat)
    requires
        k <= seq.len(),
        forall|i: int, j: int|
            0 <= i < j && j + k <= seq.len() ==> #[trigger] seq.subrange(i, i + k)
                != #[trigger] seq.subrange(j, j + k),
    ensures
        blocks(seq, k).to_set().len() == seq.len() - k + 1,
{
    let all = blocks(seq, k);
    lemma_blocks_are_windows(seq, k);
    assert forall|i: int, j: int| 0 <= i < all.len() && 0 <= j < all.len() && i != j implies all[i]
        != all[j] by {
        if i < j {
            assert(seq.subrange(i, i + k) != seq.subrange(j, j + k));
        } else {
            assert(seq.subrange(j, j + k) != seq.subrange(i, i + k));
        }
    }
    all.unique_seq_to_set();
}

/// A sequence that repeats a single symbol has exactly one block of each
/// length it can hold, so its topological entropy estimate is zero.
pub proof fn lemma_constant_sequence_one_block(seq: Seq<usize>, k: nat)
    requires
        k <= seq.len(),
        forall|i: int, j: int| 0 <= i < seq.len() && 0 <= j < seq.len() ==> seq[i] == seq[j],
    ensures
        blocks(seq, k).to_set().len() == 1,
{
    let all = blocks(seq, k);
    let w = seq.subrange(0, k as int);
    assert forall|x: Seq<usize>| all.to_set().contains(x) <==> Set::empty().insert(w).contains(x) by {
        if all.to_set().contains(x) {
            let j = choose|j: int| 0 <= j < all.len() && all[j] == x;
            assert(x =~= w);
        }
        if x == w {
            assert(all[0] =~= x);
        }
    }
    assert(all.to_set() =~= Set::empty().insert(w));
}

fn same_block(seq: &[usize], a: usize, b: usize, k: usize) -> (eq: bool)
    requires
        a + k <= seq.len(),
        b + k <= seq.len(),
    ensures
        eq == (seq@.subrange(a as int, a + k) == seq@.subrange(b as int, b + k)),
{
    let mut t: usize = 0;
    while t < k
        invariant
            t <= k,
            a + k <= seq.len(),
            b + k <= seq.len(),
            forall|u: int|
                0 <= u < t ==> #[trigger] seq@.subrange(a as int, a + k)[u] == seq@.subrange(
                    b as int,
                    b + k,
                )[u],
        decreases k - t,
    {
        if seq[a + t] != seq[b + t] {
            assert(seq@.subrange(a as int, a + k)[t as int] != seq@.subrange(b as int, b + k)[t as int]);
            return false;
        }
        t = t + 1;
    }
    assert(seq@.subrange(a as int, a + k) =~= seq@.subrange(b as int, b + k));
    true
}

/// Number of distinct blocks of length `block_size` in `sequence`: the
/// quantity N(n) whose growth rate is the topological entropy.
pub fn count_distinct_blocks(sequence: &[usize], block_size: usize) -> (n: usize)
    ensures
        n == blocks(sequence@, block_size as nat).to_set().len(),
        n == Set::new(
            |w: Seq<usize>|
                exists|i: int|
                    0 <= i && i + block_size <= sequence.len() && w == #[trigger] sequence@.subrange(
                        i,
                        i + block_size,
                    ),
        ).len(),
        block_size <= sequence.len() ==> 1 <= n <= sequence.len() - block_size + 1,
        n <= blocks(sequence@, block_size as nat).len(),
        blocks(sequence@, block_size as nat).len() > 0 ==> n >= 1,
{
    let ghost k = block_size as nat;
    let ghost all = blocks(sequence@, k);
    proof {
        lemma_blocks_are_windows(sequence@, k);
        assert(Set::new(
            |w: Seq<usize>|
                exists|i: int|
                    0 <= i && i + block_size <= sequence.len() && w == #[trigger] sequence@.subrange(
                        i,
                        i + block_size,
                    ),
        ) =~= all.to_set());
    }
    if sequence.len() < block_size {
        proof {
            all.lemma_cardinality_of_empty_set_is_0();
        }
        return 0;
    }
    if block_size == 0 {
        // Every block is the empty sequence.
        proof {
            let e = Seq::<usize>::empty();
            assert(all[0] =~= e);
            assert forall|x: Seq<usize>| all.to_set().contains(x) <==> Set::empty().insert(e).contains(x) by {
                if all.to_set().contains(x) {
                    let j = choose|j: int| 0 <= j < all.len() && all[j] == x;
                    assert(x =~= e);
                }
                if x == e {
                    assert(all[0] == x);
                }
            }
            assert(all.to_set() =~= Set::empty().insert(e));
        }
        return 1;
    }
    let n_windows = sequence.len() - block_size + 1;
    let mut firsts: Vec<usize> = Vec::new();
    let mut i: usize = 0;
    proof {
        assert(all.take(0) =~= Seq::<Seq<usize>>::empty());
        assert(blocks_at(sequence@, firsts@, k) =~= Seq::<Seq<usize>>::empty());
    }
    while i < n_windows
        invariant
            n_windows == sequence.len() - block_size + 1,
            block_size <= sequence.len(),
            k == block_size,
            all == blocks(sequence@, k),
            i <= n_windows,
            firsts.len() <= i,
            forall|j: int| 0 <= j < firsts.len() ==> firsts@[j] < i,
            blocks_at(sequence@, firsts@, k).no_duplicates(),
            blocks_at(sequence@, firsts@, k).to_set() == all.take(i as int).to_set(),
        decreases n_windows - i,
    {
        let ghost found_set = blocks_at(sequence@, firsts@, k);
        let ghost w = sequence@.subrange(i as int, i + k);
        assert(all[i as int] == w);
        let mut found = false;
        let mut j: usize = 0;
        while j < firsts.len() && !found
            invariant
                j <= firsts.len(),
                block_size <= sequence.len(),
                i < n_windows,
                n_windows == sequence.len() - block_size + 1,
                k == block_size,
                forall|m: int| 0 <= m < firsts.len() ==> firsts@[m] < i,
                found_set == blocks_at(sequence@, firsts@, k),
                w == sequence@.subrange(i as int, i + k),
                found ==> found_set.contains(w),
                !found ==> forall|m: int| 0 <= m < j ==> found_set[m] != w,
            decreases firsts.len() - j,
        {
            if same_block(sequence, firsts[j], i, block_size) {
                assert(found_set[j as int] == w);
                found = true;
            }
            j = j + 1;
        }
        proof {
            assert(all.take(i + 1) =~= all.take(i as int).push(w));
            all.take(i as int).lemma_push_to_set_commute(w);
        }
        if !found {
            firsts.push(i);
            proof {
                assert(blocks_at(sequence@, firsts@, k) =~= found_set.push(w));
                found_set.lemma_push_to_set_commute(w);
                assert(!found_set.contains(w));
            }
        } else {
            proof {
                assert(found_set.to_set().insert(w) =~= found_set.to_set());
            }
        }
        i = i + 1;
    }
    proof {
        assert(all.take(n_windows as int) =~= all);
        blocks_at(sequence@, firsts@, k).unique_seq_to_set();
        all.lemma_cardinality_of_set();
        all.lemma_cardinality_of_empty_set_is_0();
    }
    firsts.len()
}


/// Number of positions `i < m` at which the sequence steps from `a` to `b`
/// (`seq[i] == a` and `seq[i + 1] == b`).
pub open spec fn pair_count(seq: Seq<usize>, a: usize, b: usize, m: nat) -> nat
    decreases m,
{
    if m == 0 {
        0
    } else {
        pair_count(seq, a, b, (m - 1) as nat) + if seq[m - 1] == a && seq[m as int] == b {
            1nat
        } else {
            0nat
        }
    }
}

/// Number of positions `i < m` at which a transition leaves the symbol `a`
/// (`seq[i] == a`).
pub open spec fn origin_count(seq: Seq<usize>, a: usize, m: nat) -> nat
    decreases m,
{
    if m == 0 {
        0
    } else {
        origin_count(seq, a, (m - 1) as nat) + if seq[m - 1] == a {
            1nat
        } else {
            0nat
        }
    }
}

/// Number of transitions `seq[i] -> seq[i + 1]` in a sequence.
pub open spec fn num_transitions(seq: Seq<usize>) -> nat {
    if seq.len() == 0 {
        0
    } else {
        (seq.len() - 1) as nat
    }
}

/// Sum of the counts of a transition table.
pub open spec fn total_count(pairs: Seq<(usize, usize, usize)>) -> nat
    decreases pairs.len(),
{
    if pairs.len() == 0 {
        0
    } else {
        total_count(pairs.drop_last()) + pairs.last().2 as nat
    }
}

/// Sum of the counts of the transitions of a table that leave `a`.
pub open spec fn total_from(pairs: Seq<(usize, usize, usize)>, a: usize) -> nat
    decreases pairs.len(),
{
    if pairs.len() == 0 {
        0
    } else {
        total_from(pairs.drop_last(), a) + if pairs.last().0 == a {
            pairs.last().2 as nat
        } else {
            0nat
        }
    }
}

/// Transition statistics of a symbolic sequence: how often each transition
/// `from -> to` occurs, and how often a transition leaves each symbol.
#[derive(Debug, Clone)]
pub struct TransitionCounts {
    /// `(from, to, count)`, once for each transition that occurs.
    pub pairs: Vec<(usize, usize, usize)>,
    /// `(from, count)`, once for each symbol that some transition leaves.
    pub origins: Vec<(usize, usize)>,
}

impl TransitionCounts {
    /// The tables hold exactly the transitions of `seq` and their counts.
    pub open spec fn counts_of(&self, seq: Seq<usize>) -> bool {
        let t = num_transitions(seq);
        let pairs = self.pairs@;
        let origins = self.origins@;
        &&& forall|j: int|
            0 <= j < pairs.len() ==> #[trigger] pairs[j].2 == pair_count(
                seq,
                pairs[j].0,
                pairs[j].1,
                t,
            ) && pairs[j].2 > 0
        &&& forall|j: int, m: int|
            0 <= j < pairs.len() && 0 <= m < pairs.len() && j != m ==> (#[trigger] pairs[j].0,
            pairs[j].1) != (#[trigger] pairs[m].0, pairs[m].1)
        &&& forall|a: usize, b: usize|
            #[trigger] pair_count(seq, a, b, t) > 0 ==> exists|j: int|
                0 <= j < pairs.len() && pairs[j].0 == a && pairs[j].1 == b
        &&& forall|j: int|
            0 <= j < origins.len() ==> #[trigger] origins[j].1 == origin_count(
                seq,
                origins[j].0,
                t,
            ) && origins[j].1 > 0
        &&& forall|j: int, m: int|
            0 <= j < origins.len() && 0 <= m < origins.len() && j != m ==> #[trigger] origins[j].0
                != #[trigger] origins[m].0
        &&& forall|a: usize|
            #[trigger] origin_count(seq, a, t) > 0 ==> exists|j: int|
                0 <= j < origins.len() && origins[j].0 == a
    }
}

/// Every symbol of `seq` is always followed by the same symbol.
pub open spec fn is_deterministic(seq: Seq<usize>) -> bool {
    forall|i: int, j: int|
        0 <= i < num_transitions(seq) && 0 <= j < num_transitions(seq) && #[trigger] seq[i]
            == #[trigger] seq[j] ==> seq[i + 1] == seq[j + 1]
}

/// In a deterministic sequence (each symbol is always followed by the same
/// symbol) a transition that occurs accounts for every transition that
/// leaves its origin, so each conditional probability is 1 and the Shannon
/// entropy rate is zero.
pub proof fn lemma_deterministic_transitions(seq: Seq<usize>, a: usize, b: usize)
    requires
        is_deterministic(seq),
        pair_count(seq, a, b, num_transitions(seq)) > 0,
    ensures
        pair_count(seq, a, b, num_transitions(seq)) == origin_count(seq, a, num_transitions(seq)),
{
    let t = num_transitions(seq);
    let i = lemma_pair_witness(seq, a, b, t);
    lemma_deterministic_counts(seq, a, b, i, t);
}

proof fn lemma_pair_witness(seq: Seq<usize>, a: usize, b: usize, m: nat) -> (i: int)
    requires
        pair_count(seq, a, b, m) > 0,
    ensures
        0 <= i < m,
        seq[i] == a,
        seq[i + 1] == b,
    decreases m,
{
    if seq[m - 1] == a && seq[m as int] == b {
        (m - 1) as int
    } else {
        lemma_pair_witness(seq, a, b, (m - 1) as nat)
    }
}

proof fn lemma_deterministic_counts(seq: Seq<usize>, a: usize, b: usize, i: int, m: nat)
    requires
        is_deterministic(seq),
        0 <= i < num_transitions(seq),
        seq[i] == a,
        seq[i + 1] == b,
        m <= num_transitions(seq),
    ensures
        pair_count(seq, a, b, m) == origin_count(seq, a, m),
    decreases m,
{
    if m > 0 {
        lemma_deterministic_counts(seq, a, b, i, (m - 1) as nat);
        let p = m - 1;
        if seq[p] == a {
            assert(seq[i] == seq[p]);
            assert(seq[p + 1] == seq[i + 1]);
        }
    }
}

/// The transitions `(from, to)` listed in a transition table, in order.
pub open spec fn transition_keys(pairs: Seq<(usize, usize, usize)>) -> Seq<(usize, usize)> {
    pairs.map_values(|p: (usize, usize, usize)| (p.0, p.1))
}

/// The symbols listed in an origin table, in order.
pub open spec fn origin_keys(origins: Seq<(usize, usize)>) -> Seq<usize> {
    origins.map_values(|o: (usize, usize)| o.0)
}

impl TransitionCounts {
    /// The tables, read position by position: each transition is listed with
    /// the number of positions `i` (with `i + 1 < seq.len()`) at which `seq`
    /// steps from its origin to its target, each origin with the number of
    /// positions at which a step leaves it, and the step at every position
    /// appears in both tables.
    pub open spec fn counts_positions_of(&self, seq: Seq<usize>) -> bool {
        &&& forall|j: int|
            0 <= j < self.pairs@.len() ==> #[trigger] self.pairs@[j].2 == Set::new(
                |i: int|
                    0 <= i && i + 1 < seq.len() && seq[i] == self.pairs@[j].0 && seq[i + 1] == self.pairs@[j].1,
            ).len()
        &&& forall|i: int|
            0 <= i && i + 1 < seq.len() ==> #[trigger] transition_keys(self.pairs@).contains((seq[i], seq[i + 1]))
        &&& forall|j: int|
            0 <= j < self.origins@.len() ==> #[trigger] self.origins@[j].1 == Set::new(
                |i: int| 0 <= i && i + 1 < seq.len() && seq[i] == self.origins@[j].0,
            ).len()
        &&& forall|i: int|
            0 <= i && i + 1 < seq.len() ==> #[trigger] origin_keys(self.origins@).contains(seq[i])
    }
}

/// `pair_count` counts positions: the number of positions `i < m` at which
/// `seq` steps from `a` to `b`.
pub proof fn lemma_pair_count_is_positions(seq: Seq<usize>, a: usize, b: usize, m: nat)
    requires
        m == 0 || m < seq.len(),
    ensures
        Set::new(|i: int| 0 <= i < m && seq[i] == a && seq[i + 1] == b).finite(),
        pair_count(seq, a, b, m) == Set::new(
            |i: int| 0 <= i < m && seq[i] == a && seq[i + 1] == b,
        ).len(),
    decreases m,
{
    let cur = Set::new(|i: int| 0 <= i < m && seq[i] == a && seq[i + 1] == b);
    if m == 0 {
        assert(cur =~= Set::empty());
    } else {
        let m1 = (m - 1) as nat;
        lemma_pair_count_is_positions(seq, a, b, m1);
        let prev = Set::new(|i: int| 0 <= i < m1 && seq[i] == a && seq[i + 1] == b);
        if seq[m1 as int] == a && seq[m as int] == b {
            assert(cur =~= prev.insert(m1 as int));
            assert(!prev.contains(m1 as int));
        } else {
            assert(cur =~= prev);
        }
    }
}

/// `origin_count` counts positions: the number of positions `i < m` at which
/// `seq` holds `a`.
pub proof fn lemma_origin_count_is_positions(seq: Seq<usize>, a: usize, m: nat)
    requires
        m <= seq.len(),
    ensures
        Set::new(|i: int| 0 <= i < m && seq[i] == a).finite(),
        origin_count(seq, a, m) == Set::new(|i: int| 0 <= i < m && seq[i] == a).len(),
    decreases m,
{
    let cur = Set::new(|i: int| 0 <= i < m && seq[i] == a);
    if m == 0 {
        assert(cur =~= Set::empty());
    } else {
        let m1 = (m - 1) as nat;
        lemma_origin_count_is_positions(seq, a, m1);
        let prev = Set::new(|i: int| 0 <= i < m1 && seq[i] == a);
        if seq[m1 as int] == a {
            assert(cur =~= prev.insert(m1 as int));
            assert(!prev.contains(m1 as int));
        } else {
            assert(cur =~= prev);
        }
    }
}

proof fn lemma_pair_count_positive(seq: Seq<usize>, i: int, m: nat)
    requires
        0 <= i < m,
    ensures
        pair_count(seq, seq[i], seq[i + 1], m) > 0,
        origin_count(seq, seq[i], m) > 0,
    decreases m,
{
    if i < m - 1 {
        lemma_pair_count_positive(seq, i, (m - 1) as nat);
    }
}

/// Tables that hold the transitions of `seq` with their counts list them
/// position by position: every count is the number of positions at which the
/// step occurs, and every position's step is listed.
pub proof fn lemma_counts_are_positions(seq: Seq<usize>, tc: TransitionCounts)
    requires
        tc.counts_of(seq),
    ensures
        tc.counts_positions_of(seq),
{
    let t = num_transitions(seq);
    assert forall|j: int| 0 <= j < tc.pairs@.len() implies #[trigger] tc.pairs@[j].2 == Set::new(
        |i: int| 0 <= i && i + 1 < seq.len() && seq[i] == tc.pairs@[j].0 && seq[i + 1] == tc.pairs@[j].1,
    ).len() by {
        let (a, b) = (tc.pairs@[j].0, tc.pairs@[j].1);
        assert(tc.pairs@[j].2 == pair_count(seq, a, b, t));
        lemma_pair_count_is_positions(seq, a, b, t);
        let s1 = Set::new(|i: int| 0 <= i && i + 1 < seq.len() && seq[i] == a && seq[i + 1] == b);
        let s2 = Set::new(|i: int| 0 <= i < t && seq[i] == a && seq[i + 1] == b);
        assert(s1 =~= s2);
        assert(tc.pairs@[j].2 == s1.len());
        assert(s1 =~= Set::new(
            |i: int|
                0 <= i && i + 1 < seq.len() && seq[i] == tc.pairs@[j].0 && seq[i + 1] == tc.pairs@[j].1,
        ));
    }
    assert forall|i: int| 0 <= i && i + 1 < seq.len() implies #[trigger] transition_keys(tc.pairs@).contains((seq[i], seq[i + 1])) by {
        lemma_pair_count_positive(seq, i, t);
        assert(pair_count(seq, seq[i], seq[i + 1], t) > 0);
        let j = choose|j: int|
            0 <= j < tc.pairs@.len() && tc.pairs@[j].0 == seq[i] && tc.pairs@[j].1 == seq[i + 1];
        assert(transition_keys(tc.pairs@)[j] == (seq[i], seq[i + 1]));
    }
    assert forall|j: int| 0 <= j < tc.origins@.len() implies #[trigger] tc.origins@[j].1 == Set::new(
        |i: int| 0 <= i && i + 1 < seq.len() && seq[i] == tc.origins@[j].0,
    ).len() by {
        let a = tc.origins@[j].0;
        assert(tc.origins@[j].1 == origin_count(seq, a, t));
        lemma_origin_count_is_positions(seq, a, t);
        let s1 = Set::new(|i: int| 0 <= i && i + 1 < seq.len() && seq[i] == a);
        let s2 = Set::new(|i: int| 0 <= i < t && seq[i] == a);
        assert(s1 =~= s2);
        assert(tc.origins@[j].1 == s1.len());
        assert(s1 =~= Set::new(|i: int| 0 <= i && i + 1 < seq.len() && seq[i] == tc.origins@[j].0));
    }
    assert forall|i: int| 0 <= i && i + 1 < seq.len() implies #[trigger] origin_keys(tc.origins@).contains(seq[i]) by {
        lemma_pair_count_positive(seq, i, t);
        assert(origin_count(seq, seq[i], t) > 0);
        let j = choose|j: int| 0 <= j < tc.origins@.len() && tc.origins@[j].0 == seq[i];
        assert(origin_keys(tc.origins@)[j] == seq[i]);
    }
}

proof fn lemma_total_push(pairs: Seq<(usize, usize, usize)>, x: (usize, usize, usize), a: usize)
    ensures
        total_count(pairs.push(x)) == total_count(pairs) + x.2,
        total_from(pairs.push(x), a) == total_from(pairs, a) + if x.0 == a {
            x.2 as nat
        } else {
            0nat
        },
{
    assert(pairs.push(x).drop_last() =~= pairs);
}

proof fn lemma_total_update(
    pairs: Seq<(usize, usize, usize)>,
    p: int,
    c: usize,
    a: usize,
)
    requires
        0 <= p < pairs.len(),
    ensures
        total_count(pairs.update(p, (pairs[p].0, pairs[p].1, c))) + pairs[p].2 == total_count(pairs)
            + c,
        total_from(pairs.update(p, (pairs[p].0, pairs[p].1, c)), a) + (if pairs[p].0 == a {
            pairs[p].2 as nat
        } else {
            0nat
        }) == total_from(pairs, a) + (if pairs[p].0 == a {
            c as nat
        } else {
            0nat
        }),
    decreases pairs.len(),
{
    let v = (pairs[p].0, pairs[p].1, c);
    let u = pairs.update(p, v);
    if p == pairs.len() - 1 {
        assert(u.drop_last() =~= pairs.drop_last());
    } else {
        assert(u.drop_last() =~= pairs.drop_last().update(p, v));
        lemma_total_update(pairs.drop_last(), p, c, a);
    }
}

fn find_pair(pairs: &Vec<(usize, usize, usize)>, a: usize, b: usize) -> (r: Option<usize>)
    ensures
        match r {
            Some(p) => p < pairs.len() && pairs@[p as int].0 == a && pairs@[p as int].1 == b,
            None => forall|m: int| 0 <= m < pairs.len() ==> !(pairs@[m].0 == a && pairs@[m].1 == b),
        },
{
    let mut p: usize = 0;
    while p < pairs.len()
        invariant
            p <= pairs.len(),
            forall|m: int| 0 <= m < p ==> !(pairs@[m].0 == a && pairs@[m].1 == b),
        decreases pairs.len() - p,
    {
        if pairs[p].0 == a && pairs[p].1 == b {
            return Some(p);
        }
        p = p + 1;
    }
    None
}

fn find_origin(origins: &Vec<(usize, usize)>, a: usize) -> (r: Option<usize>)
    ensures
        match r {
            Some(p) => p < origins.len() && origins@[p as int].0 == a,
            None => forall|m: int| 0 <= m < origins.len() ==> origins@[m].0 != a,
        },
{
    let mut p: usize = 0;
    while p < origins.len()
        invariant
            p <= origins.len(),
            forall|m: int| 0 <= m < p ==> origins@[m].0 != a,
        decreases origins.len() - p,
    {
        if origins[p].0 == a {
            return Some(p);
        }
        p = p + 1;
    }
    None
}

/// Count the transitions of a symbolic sequence: for every transition
/// `from -> to` that occurs, how often it occurs, and for every symbol, how
/// often a transition leaves it. These are the counts from which the Shannon
/// entropy rate is estimated.
pub fn count_transitions(sequence: &[usize]) -> (tc: TransitionCounts)
    ensures
        tc.counts_of(sequence@),
        tc.counts_positions_of(sequence@),
        total_count(tc.pairs@) == num_transitions(sequence@),
        forall|j: int|
            0 <= j < tc.origins@.len() ==> #[trigger] tc.origins@[j].1 == total_from(
                tc.pairs@,
                tc.origins@[j].0,
            ),
{
    let mut pairs: Vec<(usize, usize, usize)> = Vec::new();
    let mut origins: Vec<(usize, usize)> = Vec::new();
    if sequence.len() < 2 {
        let tc = TransitionCounts { pairs, origins };
        proof {
            assert forall|a: usize, b: usize| #[trigger]
                pair_count(sequence@, a, b, num_transitions(sequence@)) == 0 by {}
            assert forall|a: usize| #[trigger]
                origin_count(sequence@, a, num_transitions(sequence@)) == 0 by {}
        }
        proof {
            lemma_counts_are_positions(sequence@, tc);
        }
        return tc;
    }
    let t = sequence.len() - 1;
    let ghost seq = sequence@;
    let mut i: usize = 0;
    while i < t
        invariant
            t == sequence.len() - 1,
            seq == sequence@,
            i <= t,
            forall|j: int|
                0 <= j < pairs@.len() ==> #[trigger] pairs@[j].2 == pair_count(
                    seq,
                    pairs@[j].0,
                    pairs@[j].1,
                    i as nat,
                ) && pairs@[j].2 > 0 && pairs@[j].2 <= i,
            forall|j: int, m: int|
                0 <= j < pairs@.len() && 0 <= m < pairs@.len() && j != m ==> (
                #[trigger] pairs@[j].0,
                pairs@[j].1,
                ) != (#[trigger] pairs@[m].0, pairs@[m].1),
            forall|a: usize, b: usize|
                #[trigger] pair_count(seq, a, b, i as nat) > 0 ==> exists|j: int|
                    0 <= j < pairs@.len() && pairs@[j].0 == a && pairs@[j].1 == b,
            forall|j: int|
                0 <= j < origins@.len() ==> #[trigger] origins@[j].1 == origin_count(
                    seq,
                    origins@[j].0,
                    i as nat,
                ) && origins@[j].1 > 0 && origins@[j].1 <= i,
            forall|j: int, m: int|
                0 <= j < origins@.len() && 0 <= m < origins@.len() && j != m
                    ==> #[trigger] origins@[j].0 != #[trigger] origins@[m].0,
            forall|a: usize|
                #[trigger] origin_count(seq, a, i as nat) > 0 ==> exists|j: int|
                    0 <= j < origins@.len() && origins@[j].0 == a,
            total_count(pairs@) == i,
            forall|a: usize| #[trigger] total_from(pairs@, a) == origin_count(seq, a, i as nat),
        decreases t - i,
    {
        let a = sequence[i];
        let b = sequence[i + 1];
        let ghost old_pairs = pairs@;
        let ghost old_origins = origins@;
        let ghost n = (i + 1) as nat;
        assert forall|x: usize, y: usize| #[trigger]
            pair_count(seq, x, y, n) == pair_count(seq, x, y, i as nat) + if x == a && y == b {
                1nat
            } else {
                0nat
            } by {}
        assert forall|x: usize| #[trigger]
            origin_count(seq, x, n) == origin_count(seq, x, i as nat) + if x == a {
                1nat
            } else {
                0nat
            } by {}
        match find_pair(&pairs, a, b) {
            Some(p) => {
                let c = pairs[p].2;
                pairs.set(p, (a, b, c + 1));
                proof {
                    lemma_total_update(old_pairs, p as int, (c + 1) as usize, a);
                    assert forall|x: usize| #[trigger]
                        total_from(pairs@, x) == origin_count(seq, x, n) by {
                        lemma_total_update(old_pairs, p as int, (c + 1) as usize, x);
                    }
                    assert forall|x: usize, y: usize| #[trigger]
                        pair_count(seq, x, y, n) > 0 implies exists|j: int|
                        0 <= j < pairs@.len() && pairs@[j].0 == x && pairs@[j].1 == y by {
                        if x == a && y == b {
                            assert(pairs@[p as int].0 == x && pairs@[p as int].1 == y);
                        } else {
                            assert(pair_count(seq, x, y, i as nat) > 0);
                            let j = choose|j: int|
                                0 <= j < old_pairs.len() && old_pairs[j].0 == x && old_pairs[j].1
                                    == y;
                            assert(pairs@[j].0 == x && pairs@[j].1 == y);
                        }
                    }
                }
            },
            None => {
                pairs.push((a, b, 1));
                proof {
                    lemma_total_push(old_pairs, (a, b, 1), a);
                    assert forall|x: usize| #[trigger]
                        total_from(pairs@, x) == origin_count(seq, x, n) by {
                        lemma_total_push(old_pairs, (a, b, 1), x);
                    }
                    assert forall|x: usize, y: usize| #[trigger]
                        pair_count(seq, x, y, n) > 0 implies exists|j: int|
                        0 <= j < pairs@.len() && pairs@[j].0 == x && pairs@[j].1 == y by {
                        if x == a && y == b {
                            assert(pairs@[old_pairs.len() as int].0 == x);
                        } else {
                            assert(pair_count(seq, x, y, i as nat) > 0);
                            let j = choose|j: int|
                                0 <= j < old_pairs.len() && old_pairs[j].0 == x && old_pairs[j].1
                                    == y;
                            assert(pairs@[j].0 == x && pairs@[j].1 == y);
                        }
                    }
                    assert forall|j: int| 0 <= j < old_pairs.len() implies pair_count(
                        seq,
                        old_pairs[j].0,
                        old_pairs[j].1,
                        n,
                    ) == old_pairs[j].2 by {
                        assert(!(old_pairs[j].0 == a && old_pairs[j].1 == b));
                    }
                    assert(pair_count(seq, a, b, i as nat) == 0);
                }
            },
        }
        match find_origin(&origins, a) {
            Some(p) => {
                let c = origins[p].1;
                origins.set(p, (a, c + 1));
                proof {
                    assert forall|x: usize| #[trigger]
                        origin_count(seq, x, n) > 0 implies exists|j: int|
                        0 <= j < origins@.len() && origins@[j].0 == x by {
                        if x == a {
                            assert(origins@[p as int].0 == x);
                        } else {
                            let j = choose|j: int| 0 <= j < old_origins.len() && old_origins[j].0 == x;
                            assert(origins@[j].0 == x);
                        }
                    }
                }
            },
            None => {
                origins.push((a, 1));
                proof {
                    assert forall|x: usize| #[trigger]
                        origin_count(seq, x, n) > 0 implies exists|j: int|
                        0 <= j < origins@.len() && origins@[j].0 == x by {
                        if x == a {
                            assert(origins@[old_origins.len() as int].0 == x);
                        } else {
                            let j = choose|j: int| 0 <= j < old_origins.len() && old_origins[j].0 == x;
                            assert(origins@[j].0 == x);
                        }
                    }
                    assert forall|j: int| 0 <= j < old_origins.len() implies origin_count(
                        seq,
                        old_origins[j].0,
                        n,
                    ) == old_origins[j].1 by {
                        assert(old_origins[j].0 != a);
                    }
                    assert(origin_count(seq, a, i as nat) == 0);
                }
            },
        }
        i = i + 1;
    }
    let tc = TransitionCounts { pairs, origins };
    proof {
        assert(num_transitions(seq) == i as nat);
        let tt = num_transitions(seq);
        assert forall|a: usize, b: usize| #[trigger] pair_count(seq, a, b, tt) > 0 implies exists|
            j: int,
        |
            0 <= j < tc.pairs@.len() && tc.pairs@[j].0 == a && tc.pairs@[j].1 == b by {
            assert(pair_count(seq, a, b, i as nat) > 0);
            let j = choose|j: int| 0 <= j < pairs@.len() && pairs@[j].0 == a && pairs@[j].1 == b;
            assert(tc.pairs@[j].0 == a && tc.pairs@[j].1 == b);
        }
        assert forall|a: usize| #[trigger] origin_count(seq, a, tt) > 0 implies exists|j: int|
            0 <= j < tc.origins@.len() && tc.origins@[j].0 == a by {
            assert(origin_count(seq, a, i as nat) > 0);
            let j = choose|j: int| 0 <= j < origins@.len() && origins@[j].0 == a;
            assert(tc.origins@[j].0 == a);
        }
        assert forall|j: int| 0 <= j < tc.origins@.len() implies #[trigger] tc.origins@[j].1
            == total_from(tc.pairs@, tc.origins@[j].0) by {
            assert(total_from(pairs@, origins@[j].0) == origin_count(seq, origins@[j].0, t as nat));
        }
        lemma_counts_are_positions(sequence@, tc);
    }
    tc
}

} // verus!
