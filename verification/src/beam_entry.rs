use vstd::prelude::*;

verus! {

/// Fixed-point probability: the integer `p` stands for the real number
/// `p / PROBABILITY_ONE`. Sums and comparisons of probabilities are then
/// ordinary integer operations, which keeps them exact.
pub type ProbabilityT = i64;

/// The fixed-point representation of probability one.
pub const PROBABILITY_ONE: ProbabilityT = 1_000_000_000;

/// Probability record for a single labeling tracked by the beam:
/// the mass of paths ending in a non-blank label, the mass of paths ending
/// in a blank, and their sum.
#[derive(Debug, Clone, Copy)]
pub struct BeamEntry {
    pub pr_total: ProbabilityT,
    pub pr_non_blank: ProbabilityT,
    pub pr_blank: ProbabilityT,
}

impl BeamEntry {
    /// The entry's invariant: the total is exactly the sum of the two parts.
    pub open spec fn wf(self) -> bool {
        self.pr_total == self.pr_non_blank + self.pr_blank
    }

    /// Creates a new `BeamEntry` with the given probabilities; the total is
    /// set to their sum.
    pub fn new(pr_non_blank: ProbabilityT, pr_blank: ProbabilityT) -> (entry: BeamEntry)
        requires
            i64::MIN <= pr_non_blank + pr_blank <= i64::MAX,
        ensures
            entry.pr_non_blank == pr_non_blank,
            entry.pr_blank == pr_blank,
            entry.pr_total == pr_non_blank + pr_blank,
            entry.wf(),
    {
        BeamEntry { pr_total: pr_non_blank + pr_blank, pr_non_blank, pr_blank }
    }

    /// Adds the given contributions to the respective fields and to the
    /// total, in place. The deltas may be negative; only the machine range
    /// of the fixed-point type is required.
    pub fn update_probabilities(&mut self, pr_non_blank: ProbabilityT, pr_blank: ProbabilityT)
        requires
            i64::MIN <= pr_blank + pr_non_blank <= i64::MAX,
            i64::MIN <= old(self).pr_non_blank + pr_non_blank <= i64::MAX,
            i64::MIN <= old(self).pr_blank + pr_blank <= i64::MAX,
            i64::MIN <= old(self).pr_total + pr_blank + pr_non_blank <= i64::MAX,
        ensures
            final(self).pr_non_blank == old(self).pr_non_blank + pr_non_blank,
            final(self).pr_blank == old(self).pr_blank + pr_blank,
            final(self).pr_total == old(self).pr_total + pr_blank + pr_non_blank,
            old(self).wf() ==> final(self).wf(),
    {
        self.pr_non_blank = self.pr_non_blank + pr_non_blank;
        self.pr_blank = self.pr_blank + pr_blank;
        self.pr_total = self.pr_total + (pr_blank + pr_non_blank);
    }
}

impl Default for BeamEntry {
    /// The default entry carries no probability mass at all.
    fn default() -> (entry: BeamEntry)
        ensures
            entry.pr_total == 0,
            entry.pr_non_blank == 0,
            entry.pr_blank == 0,
            entry.wf(),
    {
        BeamEntry { pr_total: 0, pr_non_blank: 0, pr_blank: 0 }
    }
}

/// The fields of an entry after one additive update, as
/// `BeamEntry::update_probabilities` describes it, computed over unbounded
/// integers: (non-blank, blank, total).
pub open spec fn entry_after_update(nb: int, b: int, t: int, d: (i64, i64)) -> (int, int, int) {
    (nb + d.0, b + d.1, t + d.1 + d.0)
}

/// The fields of an entry after a whole sequence of additive updates,
/// applied in order: each step is exactly what
/// `BeamEntry::update_probabilities` ensures of the three fields.
pub open spec fn entry_after_updates(nb: int, b: int, t: int, ds: Seq<(i64, i64)>) -> (
    int,
    int,
    int,
)
    decreases ds.len(),
{
    if ds.len() == 0 {
        (nb, b, t)
    } else {
        let prev = entry_after_updates(nb, b, t, ds.drop_last());
        entry_after_update(prev.0, prev.1, prev.2, ds.last())
    }
}

/// The sum of all non-blank and blank contributions in a sequence of updates.
pub open spec fn sum_of_deltas(ds: Seq<(i64, i64)>) -> int
    decreases ds.len(),
{
    if ds.len() == 0 {
        0
    } else {
        sum_of_deltas(ds.drop_last()) + ds.last().0 + ds.last().1
    }
}

/// Law: for any sequence of additive updates applied to an entry, the
/// resulting total equals the starting total plus the sum of all
/// contributions ever applied; and if the entry started well-formed, the
/// total remains exactly the sum of the non-blank and blank parts.
/// `BeamEntry::update_probabilities` performs exactly one such step, and
/// `BeamState::update` applies exactly one such step to the record of the
/// given labeling, so this accumulation holds of every record a `BeamState`
/// tracks.
pub proof fn lemma_updates_accumulate(nb: int, b: int, t: int, ds: Seq<(i64, i64)>)
    ensures
        entry_after_updates(nb, b, t, ds).2 == t + sum_of_deltas(ds),
        t == nb + b ==> entry_after_updates(nb, b, t, ds).2 == entry_after_updates(nb, b, t, ds).0
            + entry_after_updates(nb, b, t, ds).1,
    decreases ds.len(),
{
    if ds.len() > 0 {
        lemma_updates_accumulate(nb, b, t, ds.drop_last());
    }
}

/// Law: updating a labeling that has never been seen is the same as first
/// inserting the all-zero default entry and then applying one
/// `update_probabilities` call: both give the entry that holds exactly the
/// two contributions and their sum.
pub proof fn lemma_fresh_update_equals_zero_then_update(d: (i64, i64))
    ensures
        entry_after_updates(0, 0, 0, seq![d]) == (d.0 as int, d.1 as int, d.0 + d.1),
{
    let ds = seq![d];
    assert(ds.len() == 1);
    assert(ds.last() == d);
    assert(ds.drop_last() =~= Seq::<(i64, i64)>::empty());
    assert(entry_after_updates(0, 0, 0, ds.drop_last()) == (0int, 0int, 0int));
}

} // verus!
