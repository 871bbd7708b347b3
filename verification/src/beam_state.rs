use crate::beam_entry::{BeamEntry, ProbabilityT};
use crate::sorting::{
    lemma_map_values_injective_count, lemma_top_n_scores_match_sorted_prefix, sorted_desc,
    sorted_desc_scores, scores_of, top_n_elements, ScoredValue,
};
use vstd::prelude::*;

verus! {

/// The pruning threshold that `BeamState::default` uses: the fixed-point
/// form of one hundred-thousandth.
pub const DEFAULT_PRUNING_THRESHOLD: ProbabilityT = 10_000;

/// The collection that aggregates one `BeamEntry` per labeling, keyed by the
/// labeling's canonical string form, together with the pruning policy. Keys
/// are unique; iteration order is irrelevant, since every consumer re-derives
/// order by score.
pub struct BeamState {
    pub entries: Vec<(String, BeamEntry)>,
    pub pruning: bool,
    pub pruning_threshold: ProbabilityT,
}

/// The (labeling, total probability) pairs of a sequence of records.
pub open spec fn pairs_of(s: Seq<(String, BeamEntry)>) -> Seq<(String, ProbabilityT)> {
    Seq::new(s.len(), |i: int| (s[i].0, s[i].1.pr_total))
}

/// The totals alone of a sequence of (labeling, total) pairs.
pub open spec fn totals_of(s: Seq<(String, ProbabilityT)>) -> Seq<ProbabilityT> {
    Seq::new(s.len(), |i: int| s[i].1)
}

/// The pair sequence is ordered by non-increasing total.
pub open spec fn sorted_desc_pairs(s: Seq<(String, ProbabilityT)>) -> bool {
    forall|i: int, j: int| 0 <= i <= j < s.len() ==> s[i].1 >= s[j].1
}

/// Whether a record carries strictly more total probability than the
/// threshold, so that pruning keeps it.
pub open spec fn above_threshold(p: (String, BeamEntry), threshold: ProbabilityT) -> bool {
    p.1.pr_total > threshold
}

/// The subsequence of records that pruning with the given threshold keeps,
/// in their original order.
pub open spec fn pruned(s: Seq<(String, BeamEntry)>, threshold: ProbabilityT) -> Seq<
    (String, BeamEntry),
>
    decreases s.len(),
{
    if s.len() == 0 {
        Seq::empty()
    } else if above_threshold(s.last(), threshold) {
        pruned(s.drop_last(), threshold).push(s.last())
    } else {
        pruned(s.drop_last(), threshold)
    }
}

/// What pruning keeps: exactly the records strictly above the threshold,
/// each of them drawn from the original sequence, and every record of the
/// original that is above the threshold.
pub proof fn lemma_pruned_properties(s: Seq<(String, BeamEntry)>, threshold: ProbabilityT)
    ensures
        pruned(s, threshold).len() <= s.len(),
        forall|i: int|
            0 <= i < pruned(s, threshold).len() ==> above_threshold(
                #[trigger] pruned(s, threshold)[i],
                threshold,
            ) && s.contains(pruned(s, threshold)[i]),
        forall|j: int|
            0 <= j < s.len() && above_threshold(#[trigger] s[j], threshold) ==> pruned(
                s,
                threshold,
            ).contains(s[j]),
    decreases s.len(),
{
    if s.len() > 0 {
        lemma_pruned_properties(s.drop_last(), threshold);
        let rest = pruned(s.drop_last(), threshold);
        assert forall|i: int| 0 <= i < rest.len() implies s.contains(rest[i]) by {
            assert(s.drop_last().contains(rest[i]));
            let w = choose|w: int| 0 <= w < s.drop_last().len() && s.drop_last()[w] == rest[i];
            assert(s[w] == rest[i]);
        }
        assert forall|j: int|
            0 <= j < s.len() && above_threshold(#[trigger] s[j], threshold) implies pruned(
            s,
            threshold,
        ).contains(s[j]) by {
            if j == s.len() - 1 {
                assert(pruned(s, threshold).last() == s[j]);
            } else {
                assert(s.drop_last()[j] == s[j]);
                assert(rest.contains(s[j]));
                let w = choose|w: int| 0 <= w < rest.len() && rest[w] == s[j];
                if above_threshold(s.last(), threshold) {
                    assert(pruned(s, threshold)[w] == s[j]);
                }
            }
        }
    }
}

/// Pruning keeps the keys distinct if they were distinct before.
pub proof fn lemma_pruned_keys_unique(s: Seq<(String, BeamEntry)>, threshold: ProbabilityT)
    requires
        forall|i: int, j: int| 0 <= i < j < s.len() ==> s[i].0@ != s[j].0@,
    ensures
        forall|i: int, j: int|
            0 <= i < j < pruned(s, threshold).len() ==> pruned(s, threshold)[i].0@ != pruned(
                s,
                threshold,
            )[j].0@,
    decreases s.len(),
{
    if s.len() > 0 {
        assert forall|i: int, j: int| 0 <= i < j < s.drop_last().len() implies s.drop_last()[i].0@
            != s.drop_last()[j].0@ by {
            assert(s.drop_last()[i] == s[i] && s.drop_last()[j] == s[j]);
        }
        lemma_pruned_keys_unique(s.drop_last(), threshold);
        lemma_pruned_properties(s.drop_last(), threshold);
        let rest = pruned(s.drop_last(), threshold);
        if above_threshold(s.last(), threshold) {
            assert forall|i: int, j: int| 0 <= i < j < pruned(s, threshold).len() implies pruned(
                s,
                threshold,
            )[i].0@ != pruned(s, threshold)[j].0@ by {
                if j == rest.len() {
                    assert(pruned(s, threshold)[j] == s.last());
                    assert(pruned(s, threshold)[i] == rest[i]);
                    assert(s.drop_last().contains(rest[i]));
                    let w = choose|w: int|
                        0 <= w < s.drop_last().len() && s.drop_last()[w] == rest[i];
                    assert(s[w] == rest[i]);
                    assert(s[w].0@ != s[s.len() - 1].0@);
                } else {
                    assert(pruned(s, threshold)[i] == rest[i]);
                    assert(pruned(s, threshold)[j] == rest[j]);
                }
            }
        }
    }
}

impl BeamState {
    /// The collection's invariant: keys are unique (as character sequences)
    /// and every record's total is the sum of its parts.
    pub open spec fn wf(self) -> bool {
        &&& forall|i: int, j: int|
            0 <= i < j < self.entries@.len() ==> (#[trigger] self.entries@[i]).0@ != (
            #[trigger] self.entries@[j]).0@
        &&& forall|i: int| 0 <= i < self.entries@.len() ==> (#[trigger] self.entries@[i]).1.wf()
    }

    /// Whether some record is keyed by the given labeling.
    pub open spec fn has_key(self, k: Seq<char>) -> bool {
        exists|i: int| 0 <= i < self.entries@.len() && (#[trigger] self.entries@[i]).0@ == k
    }

    /// The index of the record keyed by the given labeling.
    pub open spec fn key_index(self, k: Seq<char>) -> int {
        choose|i: int| 0 <= i < self.entries@.len() && (#[trigger] self.entries@[i]).0@ == k
    }

    /// The record keyed by the given labeling.
    pub open spec fn entry_for(self, k: Seq<char>) -> BeamEntry {
        self.entries@[self.key_index(k)].1
    }

    /// Creates an empty collection with the given pruning policy.
    pub fn new(pruning: bool, pruning_threshold: ProbabilityT) -> (s: BeamState)
        ensures
            s.entries@.len() == 0,
            s.pruning == pruning,
            s.pruning_threshold == pruning_threshold,
            s.wf(),
    {
        BeamState { entries: Vec::new(), pruning, pruning_threshold }
    }

    /// Read-only lookup: the record for the labeling, or nothing if the
    /// labeling has never been updated.
    pub fn get_probabilities(&self, labeling: &String) -> (r: Option<&BeamEntry>)
        requires
            self.wf(),
        ensures
            match r {
                Some(entry) => self.has_key(labeling@) && *entry == self.entry_for(labeling@),
                None => !self.has_key(labeling@),
            },
    {
        match find_index(&self.entries, labeling) {
            Some(i) => {
                proof {
                    assert(self.has_key(labeling@));
                    let ki = self.key_index(labeling@);
                    assert(0 <= ki < self.entries@.len() && self.entries@[ki].0@ == labeling@);
                    if ki != i as int {
                        assert(self.entries@[ki].0@ != self.entries@[i as int].0@);
                    }
                }
                Some(&self.entries[i].1)
            },
            None => {
                proof {
                    assert(!self.has_key(labeling@));
                }
                None
            },
        }
    }

    /// The sole mutation entry point: if the labeling is absent, a zero
    /// record is inserted first; then the two contributions are added to it.
    /// Repeated calls for the same labeling only ever touch its one record.
    pub fn update(&mut self, labeling: String, pr_non_blank: ProbabilityT, pr_blank: ProbabilityT)
        requires
            old(self).wf(),
            i64::MIN <= pr_non_blank + pr_blank <= i64::MAX,
            old(self).has_key(labeling@) ==> ({
                let e = old(self).entry_for(labeling@);
                &&& i64::MIN <= e.pr_non_blank + pr_non_blank <= i64::MAX
                &&& i64::MIN <= e.pr_blank + pr_blank <= i64::MAX
                &&& i64::MIN <= e.pr_total + pr_blank + pr_non_blank <= i64::MAX
            }),
        ensures
            final(self).wf(),
            final(self).pruning == old(self).pruning,
            final(self).pruning_threshold == old(self).pruning_threshold,
            old(self).has_key(labeling@) ==> ({
                let i = old(self).key_index(labeling@);
                let e = old(self).entry_for(labeling@);
                &&& final(self).entries@.len() == old(self).entries@.len()
                &&& forall|j: int|
                    0 <= j < old(self).entries@.len() && j != i ==> final(self).entries@[j] == old(
                        self,
                    ).entries@[j]
                &&& final(self).entries@[i].0 == old(self).entries@[i].0
                &&& final(self).entries@[i].1.pr_non_blank == e.pr_non_blank + pr_non_blank
                &&& final(self).entries@[i].1.pr_blank == e.pr_blank + pr_blank
                &&& final(self).entries@[i].1.pr_total == e.pr_total + pr_blank + pr_non_blank
            }),
            !old(self).has_key(labeling@) ==> ({
                &&& final(self).entries@.len() == old(self).entries@.len() + 1
                &&& forall|j: int|
                    0 <= j < old(self).entries@.len() ==> final(self).entries@[j] == old(
                        self,
                    ).entries@[j]
                &&& final(self).entries@.last().0 == labeling
                &&& final(self).entries@.last().1.pr_non_blank == pr_non_blank
                &&& final(self).entries@.last().1.pr_blank == pr_blank
                &&& final(self).entries@.last().1.pr_total == pr_non_blank + pr_blank
            }),
    {
        match find_index(&self.entries, &labeling) {
            Some(i) => {
                proof {
                    assert(self.has_key(labeling@));
                    let ki = self.key_index(labeling@);
                    assert(0 <= ki < self.entries@.len() && self.entries@[ki].0@ == labeling@);
                    if ki != i as int {
                        assert(self.entries@[ki].0@ != self.entries@[i as int].0@);
                    }
                    assert(ki == i as int);
                }
                let slot = &mut self.entries[i];
                slot.1.update_probabilities(pr_non_blank, pr_blank);
                proof {
                    let olds = old(self).entries@;
                    let news = self.entries@;
                    assert(news == olds.update(
                        i as int,
                        (olds[i as int].0, news[i as int].1),
                    ));
                    assert forall|a: int, b: int| 0 <= a < b < news.len() implies (
                    #[trigger] news[a]).0@ != (#[trigger] news[b]).0@ by {
                        assert(news[a].0 == olds[a].0 && news[b].0 == olds[b].0);
                    }
                    assert forall|a: int| 0 <= a < news.len() implies (
                    #[trigger] news[a]).1.wf() by {
                        if a != i as int {
                            assert(news[a] == olds[a]);
                        }
                    }
                }
            },
            None => {
                proof {
                    assert(!self.has_key(labeling@));
                }
                let entry = BeamEntry::new(pr_non_blank, pr_blank);
                self.entries.push((labeling, entry));
                proof {
                    let olds = old(self).entries@;
                    let news = self.entries@;
                    assert forall|a: int, b: int| 0 <= a < b < news.len() implies (
                    #[trigger] news[a]).0@ != (#[trigger] news[b]).0@ by {
                        if b == news.len() - 1 {
                            assert(news[a] == olds[a]);
                        } else {
                            assert(news[a] == olds[a] && news[b] == olds[b]);
                        }
                    }
                    assert forall|a: int| 0 <= a < news.len() implies (
                    #[trigger] news[a]).1.wf() by {
                        if a != news.len() - 1 {
                            assert(news[a] == olds[a]);
                        }
                    }
                }
            },
        }
    }

    /// Removes, in place, every record whose total probability is not
    /// strictly greater than the pruning threshold. Records that survive are
    /// untouched and keep their relative order. When pruning is disabled the
    /// call has no effect at all.
    pub fn prune(&mut self)
        requires
            old(self).wf(),
        ensures
            final(self).wf(),
            final(self).pruning == old(self).pruning,
            final(self).pruning_threshold == old(self).pruning_threshold,
            !old(self).pruning ==> *final(self) == *old(self),
            old(self).pruning ==> final(self).entries@ == pruned(
                old(self).entries@,
                old(self).pruning_threshold,
            ),
            // every remaining record is strictly above the threshold
            old(self).pruning ==> forall|i: int|
                0 <= i < final(self).entries@.len() ==> (
                #[trigger] final(self).entries@[i]).1.pr_total > old(self).pruning_threshold,
            // every record above the threshold survives ...
            old(self).pruning ==> forall|j: int|
                0 <= j < old(self).entries@.len() && (#[trigger] old(self).entries@[j]).1.pr_total
                    > old(self).pruning_threshold ==> final(self).entries@.contains(
                    old(self).entries@[j],
                ),
            // ... and every record at or below it is removed
            old(self).pruning ==> forall|j: int|
                0 <= j < old(self).entries@.len() && (#[trigger] old(self).entries@[j]).1.pr_total
                    <= old(self).pruning_threshold ==> !final(self).entries@.contains(
                    old(self).entries@[j],
                ),
    {
        if !self.pruning {
            return ;
        }
        let threshold = self.pruning_threshold;
        let ghost olds = self.entries@;
        let mut kept: Vec<(String, BeamEntry)> = Vec::new();
        let mut i: usize = 0;
        proof {
            assert(olds.subrange(0, 0) =~= Seq::<(String, BeamEntry)>::empty());
        }
        while i < self.entries.len()
            invariant
                i <= olds.len(),
                self.entries@ == olds,
                self.pruning_threshold == threshold,
                kept@ == pruned(olds.subrange(0, i as int), threshold),
            decreases olds.len() - i,
        {
            let pair = &self.entries[i];
            let keep = pair.1.pr_total > threshold;
            if keep {
                kept.push((pair.0.clone(), pair.1));
            }
            proof {
                let pre = olds.subrange(0, i as int);
                let cur = olds.subrange(0, i + 1);
                assert(cur.drop_last() =~= pre);
                assert(cur.last() == olds[i as int]);
                assert(pruned(cur, threshold) == if above_threshold(olds[i as int], threshold) {
                    pruned(pre, threshold).push(olds[i as int])
                } else {
                    pruned(pre, threshold)
                });
            }
            i += 1;
        }
        proof {
            assert(olds.subrange(0, olds.len() as int) =~= olds);
        }
        self.entries = kept;
        proof {
            lemma_pruned_properties(olds, threshold);
            lemma_pruned_keys_unique(olds, threshold);
            assert forall|a: int| 0 <= a < self.entries@.len() implies (
            #[trigger] self.entries@[a]).1.wf() by {
                assert(olds.contains(self.entries@[a]));
                let w = choose|w: int| 0 <= w < olds.len() && olds[w] == self.entries@[a];
                assert(olds[w].1.wf());
            }
            assert forall|j: int|
                0 <= j < olds.len() && (#[trigger] olds[j]).1.pr_total <= threshold implies
                !self.entries@.contains(olds[j]) by {
                if self.entries@.contains(olds[j]) {
                    let w = choose|w: int|
                        0 <= w < self.entries@.len() && self.entries@[w] == olds[j];
                    assert(above_threshold(self.entries@[w], threshold));
                }
            }
        }
    }

    /// If pruning is enabled, first prunes; then returns every surviving
    /// record as a (labeling, total probability) pair, ordered by
    /// non-increasing total. The result is a permutation of the surviving
    /// records.
    pub fn sort(&mut self) -> (r: Vec<(String, ProbabilityT)>)
        requires
            old(self).wf(),
        ensures
            final(self).wf(),
            final(self).pruning == old(self).pruning,
            final(self).pruning_threshold == old(self).pruning_threshold,
            old(self).pruning ==> final(self).entries@ == pruned(
                old(self).entries@,
                old(self).pruning_threshold,
            ),
            !old(self).pruning ==> final(self).entries@ == old(self).entries@,
            sorted_desc_pairs(r@),
            r@.len() == final(self).entries@.len(),
            r@.to_multiset() == pairs_of(final(self).entries@).to_multiset(),
            totals_of(r@).to_multiset() == totals_of(pairs_of(final(self).entries@)).to_multiset(),
    {
        if self.pruning {
            self.prune();
        }
        let m = self.entries.len();
        extract_top(&self.entries, m)
    }

    /// If pruning is enabled, first prunes; then returns the `n` surviving
    /// records with the highest totals as (labeling, total probability)
    /// pairs, ordered by non-increasing total — all survivors if fewer than
    /// `n` remain. Whenever a survivor is left out, the result is full and
    /// the survivor's total does not exceed the least returned total.
    pub fn sort_top_n(&mut self, n: usize) -> (r: Vec<(String, ProbabilityT)>)
        requires
            old(self).wf(),
        ensures
            final(self).wf(),
            final(self).pruning == old(self).pruning,
            final(self).pruning_threshold == old(self).pruning_threshold,
            old(self).pruning ==> final(self).entries@ == pruned(
                old(self).entries@,
                old(self).pruning_threshold,
            ),
            !old(self).pruning ==> final(self).entries@ == old(self).entries@,
            sorted_desc_pairs(r@),
            r@.len() == (if n as int <= final(self).entries@.len() {
                n as int
            } else {
                final(self).entries@.len() as int
            }),
            forall|q: (String, ProbabilityT)| #[trigger]
                r@.to_multiset().count(q) <= pairs_of(final(self).entries@).to_multiset().count(q),
            forall|q: (String, ProbabilityT)|
                pairs_of(final(self).entries@).to_multiset().count(q) > (
                #[trigger] r@.to_multiset().count(q)) ==> r@.len() == n && (r@.len() > 0 ==> q.1
                    <= r@[r@.len() - 1].1),
            forall|s: ProbabilityT| #[trigger]
                totals_of(r@).to_multiset().count(s) <= totals_of(
                    pairs_of(final(self).entries@),
                ).to_multiset().count(s),
            forall|s: ProbabilityT|
                totals_of(pairs_of(final(self).entries@)).to_multiset().count(s) > (
                #[trigger] totals_of(r@).to_multiset().count(s)) ==> r@.len() == n && (r@.len() > 0
                    ==> s <= r@[r@.len() - 1].1),
            n >= final(self).entries@.len() ==> r@.to_multiset() == pairs_of(
                final(self).entries@,
            ).to_multiset() && totals_of(r@).to_multiset() == totals_of(
                pairs_of(final(self).entries@),
            ).to_multiset(),
    {
        if self.pruning {
            self.prune();
        }
        extract_top(&self.entries, n)
    }
}

impl Default for BeamState {
    /// The default collection has pruning enabled with the default
    /// threshold.
    fn default() -> (s: BeamState)
        ensures
            s.entries@.len() == 0,
            s.pruning == true,
            s.pruning_threshold == DEFAULT_PRUNING_THRESHOLD,
            s.wf(),
    {
        BeamState::new(true, DEFAULT_PRUNING_THRESHOLD)
    }
}

/// The index of the record keyed by the given labeling, if there is one.
fn find_index(entries: &Vec<(String, BeamEntry)>, labeling: &String) -> (r: Option<usize>)
    ensures
        match r {
            Some(i) => i < entries@.len() && entries@[i as int].0@ == labeling@,
            None => forall|j: int| 0 <= j < entries@.len() ==> entries@[j].0@ != labeling@,
        },
{
    let mut i: usize = 0;
    while i < entries.len()
        invariant
            i <= entries@.len(),
            forall|j: int| 0 <= j < i ==> entries@[j].0@ != labeling@,
        decreases entries@.len() - i,
    {
        let pair = &entries[i];
        if pair.0.eq(labeling) {
            return Some(i);
        }
        i += 1;
    }
    None
}

/// Builds the (labeling, total) pairs of the records, selects the `n` pairs
/// with the highest totals and returns them ordered by non-increasing total.
fn extract_top(entries: &Vec<(String, BeamEntry)>, n: usize) -> (r: Vec<(String, ProbabilityT)>)
    ensures
        sorted_desc_pairs(r@),
        r@.len() == (if n as int <= entries@.len() {
            n as int
        } else {
            entries@.len() as int
        }),
        forall|q: (String, ProbabilityT)| #[trigger]
            r@.to_multiset().count(q) <= pairs_of(entries@).to_multiset().count(q),
        forall|q: (String, ProbabilityT)|
            pairs_of(entries@).to_multiset().count(q) > (#[trigger] r@.to_multiset().count(q))
                ==> r@.len() == n && (r@.len() > 0 ==> q.1 <= r@[r@.len() - 1].1),
        forall|s: ProbabilityT| #[trigger]
            totals_of(r@).to_multiset().count(s) <= totals_of(
                pairs_of(entries@),
            ).to_multiset().count(s),
        forall|s: ProbabilityT|
            totals_of(pairs_of(entries@)).to_multiset().count(s) > (
            #[trigger] totals_of(r@).to_multiset().count(s)) ==> r@.len() == n && (r@.len() > 0
                ==> s <= r@[r@.len() - 1].1),
        n >= entries@.len() ==> r@.to_multiset() == pairs_of(entries@).to_multiset() && totals_of(
            r@,
        ).to_multiset() == totals_of(pairs_of(entries@)).to_multiset(),
{
    let mut scored: Vec<ScoredValue<String>> = Vec::new();
    let mut i: usize = 0;
    while i < entries.len()
        invariant
            i <= entries@.len(),
            scored@.len() == i,
            forall|j: int|
                0 <= j < i ==> (#[trigger] scored@[j]).value == entries@[j].0 && scored@[j].score
                    == entries@[j].1.pr_total,
        decreases entries@.len() - i,
    {
        let pair = &entries[i];
        scored.push(ScoredValue::new(pair.0.clone(), pair.1.pr_total));
        i += 1;
    }
    let ghost svs = scored@;
    let top = top_n_elements(scored, n);
    let mut out: Vec<(String, ProbabilityT)> = Vec::new();
    let mut k: usize = 0;
    while k < top.len()
        invariant
            k <= top@.len(),
            out@.len() == k,
            forall|j: int|
                0 <= j < k ==> (#[trigger] out@[j]).0 == top@[j].value && out@[j].1
                    == top@[j].score,
        decreases top@.len() - k,
    {
        let sv = &top[k];
        out.push((sv.value.clone(), sv.score));
        k += 1;
    }
    proof {
        let f = |sv: ScoredValue<String>| (sv.value, sv.score);
        assert(svs.map_values(f) =~= pairs_of(entries@));
        assert(top@.map_values(f) =~= out@);
        assert(scores_of(svs) =~= totals_of(pairs_of(entries@)));
        assert(scores_of(top@) =~= totals_of(out@));
        assert forall|a1: ScoredValue<String>, a2: ScoredValue<String>| #[trigger] f(a1)
            == #[trigger] f(a2) implies a1 == a2 by {
            assert(a1.value == a2.value && a1.score == a2.score);
        }
        assert forall|q: (String, ProbabilityT)| #[trigger] out@.to_multiset().count(q) <= pairs_of(
            entries@,
        ).to_multiset().count(q) by {
            let w = ScoredValue { value: q.0, score: q.1 };
            assert(f(w) == q);
            lemma_map_values_injective_count(svs, f, w);
            lemma_map_values_injective_count(top@, f, w);
        }
        assert forall|q: (String, ProbabilityT)|
            pairs_of(entries@).to_multiset().count(q) > (
            #[trigger] out@.to_multiset().count(q)) implies out@.len() == n && (out@.len() > 0
            ==> q.1 <= out@[out@.len() - 1].1) by {
            let w = ScoredValue { value: q.0, score: q.1 };
            assert(f(w) == q);
            lemma_map_values_injective_count(svs, f, w);
            lemma_map_values_injective_count(top@, f, w);
            assert(svs.to_multiset().count(w) > top@.to_multiset().count(w));
            if out@.len() > 0 {
                assert(out@[out@.len() - 1].1 == top@[top@.len() - 1].score);
            }
        }
        if n >= entries@.len() {
            assert forall|q: (String, ProbabilityT)| #[trigger] out@.to_multiset().count(q)
                == pairs_of(entries@).to_multiset().count(q) by {
                let w = ScoredValue { value: q.0, score: q.1 };
                assert(f(w) == q);
                lemma_map_values_injective_count(svs, f, w);
                lemma_map_values_injective_count(top@, f, w);
                assert(top@.to_multiset().count(w) == svs.to_multiset().count(w));
            }
            assert(out@.to_multiset() =~= pairs_of(entries@).to_multiset());
        }
    }
    out
}

/// Law: the bounded top-n extraction agrees, total for total, with the full
/// sort truncated to its leading `n` pairs. `pairs` is the collection both
/// were drawn from (the surviving records as (labeling, total) pairs);
/// `full` is any output permitted by `sort`'s contract and `top` any output
/// permitted by `sort_top_n`'s, for the same collection. Then the two agree
/// on every position of `top`, up to the unspecified order among equal
/// totals.
pub proof fn lemma_sort_top_n_matches_sort_prefix(
    pairs: Seq<(String, ProbabilityT)>,
    full: Seq<(String, ProbabilityT)>,
    top: Seq<(String, ProbabilityT)>,
    n: int,
)
    requires
        sorted_desc_pairs(full),
        totals_of(full).to_multiset() == totals_of(pairs).to_multiset(),
        sorted_desc_pairs(top),
        top.len() == (if n <= pairs.len() {
            n
        } else {
            pairs.len() as int
        }),
        forall|s: ProbabilityT| #[trigger]
            totals_of(top).to_multiset().count(s) <= totals_of(pairs).to_multiset().count(s),
        forall|s: ProbabilityT|
            totals_of(pairs).to_multiset().count(s) > (#[trigger] totals_of(
                top,
            ).to_multiset().count(s)) ==> top.len() == n && (top.len() > 0 ==> s <= top[top.len()
                - 1].1),
    ensures
        forall|i: int| 0 <= i < top.len() ==> top[i].1 == full[i].1,
{
    broadcast use vstd::multiset::group_multiset_axioms;
    broadcast use vstd::seq_lib::group_to_multiset_ensures;

    totals_of(full).to_multiset_ensures();
    totals_of(pairs).to_multiset_ensures();
    assert(totals_of(full).to_multiset().len() == totals_of(pairs).to_multiset().len());
    assert(full.len() == pairs.len());
    assert(sorted_desc_scores(totals_of(full)));
    assert(sorted_desc_scores(totals_of(top)));
    lemma_top_n_scores_match_sorted_prefix(totals_of(full), totals_of(top), n);
    assert forall|i: int| 0 <= i < top.len() implies top[i].1 == full[i].1 by {
        assert(totals_of(top)[i] == totals_of(full)[i]);
    }
}

} // verus!
