use core::cmp::Ordering;
use crate::beam_entry::ProbabilityT;
use vstd::multiset::Multiset;
use vstd::prelude::*;
use vstd::seq_lib::lemma_multiset_commutative;

verus! {

/// A value of any type paired with a fixed-point score. Ordering, equality
/// and comparison are defined purely by the score: two `ScoredValue`s with
/// equal scores compare equal even if their values differ. This is
/// intentional, so that the bounded selection below is reusable for any
/// payload type.
#[derive(Debug, Clone)]
pub struct ScoredValue<T> {
    pub value: T,
    pub score: ProbabilityT,
}

impl<T> ScoredValue<T> {
    /// Creates a new `ScoredValue` with the given value and score.
    pub fn new(value: T, score: ProbabilityT) -> (r: ScoredValue<T>)
        ensures
            r.value == value,
            r.score == score,
    {
        ScoredValue { value, score }
    }
}

impl<T> PartialEq for ScoredValue<T> {
    fn eq(&self, other: &Self) -> (r: bool) {
        self.score == other.score
    }
}

impl<T> vstd::std_specs::cmp::PartialEqSpecImpl for ScoredValue<T> {
    open spec fn obeys_eq_spec() -> bool {
        true
    }

    open spec fn eq_spec(&self, other: &Self) -> bool {
        self.score == other.score
    }
}

impl<T> PartialOrd for ScoredValue<T> {
    fn partial_cmp(&self, other: &Self) -> (r: Option<Ordering>) {
        if self.score < other.score {
            Some(Ordering::Less)
        } else if self.score == other.score {
            Some(Ordering::Equal)
        } else {
            Some(Ordering::Greater)
        }
    }
}

impl<T> vstd::std_specs::cmp::PartialOrdSpecImpl for ScoredValue<T> {
    open spec fn obeys_partial_cmp_spec() -> bool {
        true
    }

    open spec fn partial_cmp_spec(&self, other: &Self) -> Option<Ordering> {
        if self.score < other.score {
            Some(Ordering::Less)
        } else if self.score == other.score {
            Some(Ordering::Equal)
        } else {
            Some(Ordering::Greater)
        }
    }
}

/// The sequence is ordered by non-increasing score.
pub open spec fn sorted_desc<T>(s: Seq<ScoredValue<T>>) -> bool {
    forall|i: int, j: int| 0 <= i <= j < s.len() ==> s[i].score >= s[j].score
}

/// The sequence of scores of a sequence of scored values.
pub open spec fn scores_of<T>(s: Seq<ScoredValue<T>>) -> Seq<ProbabilityT> {
    Seq::new(s.len(), |i: int| s[i].score)
}

/// A plain sequence of scores is ordered non-increasingly.
pub open spec fn sorted_desc_scores(s: Seq<ProbabilityT>) -> bool {
    forall|i: int, j: int| 0 <= i <= j < s.len() ==> s[i] >= s[j]
}

/// Inserting an element into a sequence inserts it into the multiset of the
/// sequence's elements.
pub(crate) proof fn lemma_to_multiset_insert<A>(s: Seq<A>, i: int, a: A)
    requires
        0 <= i <= s.len(),
    ensures
        s.insert(i, a).to_multiset() =~= s.to_multiset().insert(a),
{
    broadcast use vstd::multiset::group_multiset_axioms;
    broadcast use vstd::multiset::group_multiset_properties;
    broadcast use vstd::seq_lib::group_to_multiset_ensures;

    let left = s.subrange(0, i);
    let right = s.subrange(i, s.len() as int);
    assert(s.insert(i, a) == left.push(a) + right);
    assert(s =~= left + right);
    lemma_multiset_commutative(left.push(a), right);
    lemma_multiset_commutative(left, right);
    assert forall|v: A|
        s.insert(i, a).to_multiset().count(v) == s.to_multiset().insert(a).count(v) by {
        assert(left.push(a).to_multiset() =~= left.to_multiset().insert(a));
    }
}

/// Prepending an element to a sequence inserts it into the multiset of the
/// sequence's elements.
pub(crate) proof fn lemma_cons_to_multiset<A>(a: A, s: Seq<A>)
    ensures
        (seq![a] + s).to_multiset() =~= s.to_multiset().insert(a),
{
    broadcast use vstd::multiset::group_multiset_axioms;
    broadcast use vstd::multiset::group_multiset_properties;
    broadcast use vstd::seq_lib::group_to_multiset_ensures;

    lemma_multiset_commutative(seq![a], s);
    assert(seq![a] =~= Seq::<A>::empty().push(a));
    assert(seq![a].to_multiset() =~= Seq::<A>::empty().to_multiset().insert(a));
    assert(Seq::<A>::empty().to_multiset() =~= Multiset::<A>::empty()) by {
        assert(Seq::<A>::empty().to_multiset().len() == 0);
    }
    assert forall|v: A| (seq![a] + s).to_multiset().count(v) == s.to_multiset().insert(a).count(
        v,
    ) by {}
}

/// Removing the last element of a sequence removes it from the multiset of
/// the sequence's elements.
pub(crate) proof fn lemma_drop_last_to_multiset<A>(s: Seq<A>)
    requires
        s.len() > 0,
    ensures
        s.to_multiset() =~= s.drop_last().to_multiset().insert(s.last()),
{
    broadcast use vstd::multiset::group_multiset_axioms;
    broadcast use vstd::seq_lib::group_to_multiset_ensures;

    assert(s.drop_last().push(s.last()) =~= s);
}

/// The score sequence of `s.insert(i, a)` is the score sequence of `s` with
/// `a`'s score inserted at the same position.
proof fn lemma_scores_of_insert<T>(s: Seq<ScoredValue<T>>, i: int, a: ScoredValue<T>)
    requires
        0 <= i <= s.len(),
    ensures
        scores_of(s.insert(i, a)) =~= scores_of(s).insert(i, a.score),
{
    s.insert_ensures(i, a);
    scores_of(s).insert_ensures(i, a.score);
}

/// The score sequence of `seq![a] + s` starts with `a`'s score.
proof fn lemma_scores_of_cons<T>(a: ScoredValue<T>, s: Seq<ScoredValue<T>>)
    ensures
        scores_of(seq![a] + s) =~= seq![a.score] + scores_of(s),
{
}

/// The score sequence of `s.drop_last()` drops the last score of `s`.
proof fn lemma_scores_of_drop_last<T>(s: Seq<ScoredValue<T>>)
    requires
        s.len() > 0,
    ensures
        scores_of(s.drop_last()) =~= scores_of(s).drop_last(),
{
}

/// Mapping a sequence through an injective function preserves every
/// multiplicity: the count of `f(x)` among the images equals the count of
/// `x` among the originals.
pub(crate) proof fn lemma_map_values_injective_count<A, B>(s: Seq<A>, f: spec_fn(A) -> B, x: A)
    requires
        forall|a1: A, a2: A| #[trigger] f(a1) == #[trigger] f(a2) ==> a1 == a2,
    ensures
        s.map_values(f).to_multiset().count(f(x)) == s.to_multiset().count(x),
    decreases s.len(),
{
    broadcast use vstd::multiset::group_multiset_axioms;
    broadcast use vstd::multiset::group_multiset_properties;
    broadcast use vstd::seq_lib::group_to_multiset_ensures;

    if s.len() == 0 {
        assert(s.map_values(f) =~= Seq::<B>::empty());
        assert(Seq::<B>::empty().to_multiset() =~= Multiset::<B>::empty()) by {
            assert(Seq::<B>::empty().to_multiset().len() == 0);
        }
        assert(s.to_multiset() =~= Multiset::<A>::empty()) by {
            assert(s.to_multiset().len() == 0);
        }
    } else {
        let last = s.last();
        lemma_map_values_injective_count(s.drop_last(), f, x);
        assert(s.drop_last().push(last) =~= s);
        assert(s.drop_last().map_values(f).push(f(last)) =~= s.map_values(f));
        assert(s.to_multiset() =~= s.drop_last().to_multiset().insert(last));
        assert(s.map_values(f).to_multiset() =~= s.drop_last().map_values(f).to_multiset().insert(
            f(last),
        ));
    }
}

/// The part of the input that the selection loop has already consumed: the
/// loop takes elements from the back, so the remaining input is a prefix and
/// the consumed part is the complementary suffix.
spec fn processed_part<T>(orig: Seq<ScoredValue<T>>, remaining: int) -> Seq<ScoredValue<T>>
    recommends
        0 <= remaining <= orig.len(),
{
    orig.subrange(remaining, orig.len() as int)
}

/// The selection loop's relation between what it keeps and what it has seen:
/// the kept elements are sorted by non-increasing score, there are exactly
/// `min(n, seen)` of them, they are drawn from the processed elements
/// (counting multiplicity, both as values and as scores), anything processed
/// but not kept scores no higher than the least kept score, and as long as
/// nothing has been discarded the kept elements are exactly the processed
/// ones.
spec fn selection_ok<T>(kept: Seq<ScoredValue<T>>, processed: Seq<ScoredValue<T>>, n: int) -> bool {
    &&& sorted_desc(kept)
    &&& kept.len() == (if n <= processed.len() {
        n
    } else {
        processed.len() as int
    })
    &&& forall|q: ScoredValue<T>| #[trigger]
        kept.to_multiset().count(q) <= processed.to_multiset().count(q)
    &&& forall|q: ScoredValue<T>|
        processed.to_multiset().count(q) > (#[trigger] kept.to_multiset().count(q)) ==> kept.len()
            == n && (kept.len() > 0 ==> q.score <= kept[kept.len() - 1].score)
    &&& forall|s: ProbabilityT| #[trigger]
        scores_of(kept).to_multiset().count(s) <= scores_of(processed).to_multiset().count(s)
    &&& forall|s: ProbabilityT|
        scores_of(processed).to_multiset().count(s) > (#[trigger] scores_of(
            kept,
        ).to_multiset().count(s)) ==> kept.len() == n && (kept.len() > 0 ==> s <= kept[kept.len()
            - 1].score)
    &&& (kept.len() == processed.len() ==> kept.to_multiset() =~= processed.to_multiset()
        && scores_of(kept).to_multiset() =~= scores_of(processed).to_multiset())
}

/// Taking the new item while the selection is not full yet keeps the
/// selection relation: nothing has been discarded so far, so the kept
/// elements remain exactly the processed ones.
proof fn lemma_selection_insert_fresh<T>(
    k_old: Seq<ScoredValue<T>>,
    p_old: Seq<ScoredValue<T>>,
    item: ScoredValue<T>,
    k_new: Seq<ScoredValue<T>>,
    n: int,
)
    requires
        selection_ok(k_old, p_old, n),
        k_old.len() < n,
        sorted_desc(k_new),
        k_new.len() == k_old.len() + 1,
        k_new.to_multiset() =~= k_old.to_multiset().insert(item),
        scores_of(k_new).to_multiset() =~= scores_of(k_old).to_multiset().insert(item.score),
    ensures
        selection_ok(k_new, seq![item] + p_old, n),
{
    broadcast use vstd::multiset::group_multiset_axioms;
    broadcast use vstd::seq_lib::group_to_multiset_ensures;

    let p_new = seq![item] + p_old;
    lemma_cons_to_multiset(item, p_old);
    lemma_scores_of_cons(item, p_old);
    lemma_cons_to_multiset(item.score, scores_of(p_old));
    assert(scores_of(p_new).to_multiset() =~= scores_of(p_old).to_multiset().insert(item.score));
    // the selection was not full, so everything processed so far was kept
    assert(k_old.len() == p_old.len());
    assert(k_old.to_multiset() =~= p_old.to_multiset());
    assert(scores_of(k_old).to_multiset() =~= scores_of(p_old).to_multiset());
    assert(k_new.to_multiset() =~= p_new.to_multiset());
    assert(scores_of(k_new).to_multiset() =~= scores_of(p_new).to_multiset());
    assert(k_new.len() == (if n <= p_new.len() {
        n
    } else {
        p_new.len() as int
    }));
}

/// Evicting the least kept element in favour of a strictly better item keeps
/// the selection relation: the evicted element scores no higher than any
/// element of the new selection, and everything previously left out scored
/// no higher than the evicted element.
proof fn lemma_selection_evict<T>(
    k_old: Seq<ScoredValue<T>>,
    p_old: Seq<ScoredValue<T>>,
    item: ScoredValue<T>,
    k_new: Seq<ScoredValue<T>>,
    n: int,
)
    requires
        selection_ok(k_old, p_old, n),
        n > 0,
        k_old.len() == n,
        item.score > k_old.last().score,
        sorted_desc(k_new),
        k_new.len() == n,
        k_new.to_multiset() =~= k_old.drop_last().to_multiset().insert(item),
        scores_of(k_new).to_multiset() =~= scores_of(k_old.drop_last()).to_multiset().insert(
            item.score,
        ),
        k_new[k_new.len() - 1].score >= k_old.last().score,
    ensures
        selection_ok(k_new, seq![item] + p_old, n),
{
    broadcast use vstd::multiset::group_multiset_axioms;
    broadcast use vstd::seq_lib::group_to_multiset_ensures;

    let evicted = k_old.last();
    let k_mid = k_old.drop_last();
    let p_new = seq![item] + p_old;
    lemma_cons_to_multiset(item, p_old);
    lemma_scores_of_cons(item, p_old);
    lemma_cons_to_multiset(item.score, scores_of(p_old));
    assert(scores_of(p_new).to_multiset() =~= scores_of(p_old).to_multiset().insert(item.score));
    lemma_drop_last_to_multiset(k_old);
    lemma_scores_of_drop_last(k_old);
    lemma_drop_last_to_multiset(scores_of(k_old));
    assert(scores_of(k_old).last() == evicted.score);
    assert(scores_of(k_old).to_multiset() =~= scores_of(k_mid).to_multiset().insert(
        evicted.score,
    ));
    // the processed part held at least n elements already
    assert(p_old.len() >= n);
    assert(k_new.len() == (if n <= p_new.len() {
        n
    } else {
        p_new.len() as int
    }));
    // the new item was never left out before this step
    assert(p_old.to_multiset().count(item) <= k_old.to_multiset().count(item)) by {
        if p_old.to_multiset().count(item) > k_old.to_multiset().count(item) {
            assert(item.score <= k_old[k_old.len() - 1].score);
        }
    }
    assert(scores_of(p_old).to_multiset().count(item.score) <= scores_of(
        k_old,
    ).to_multiset().count(item.score)) by {
        if scores_of(p_old).to_multiset().count(item.score) > scores_of(k_old).to_multiset().count(
            item.score,
        ) {
            assert(item.score <= k_old[k_old.len() - 1].score);
        }
    }
    assert(item != evicted);
    assert(item.score != evicted.score);
    assert forall|q: ScoredValue<T>| #[trigger] k_new.to_multiset().count(q)
        <= p_new.to_multiset().count(q) by {
        assert(k_new.to_multiset().count(q) == k_mid.to_multiset().count(q) + (if q == item {
            1int
        } else {
            0
        }));
        assert(k_old.to_multiset().count(q) == k_mid.to_multiset().count(q) + (if q == evicted {
            1int
        } else {
            0
        }));
        assert(k_old.to_multiset().count(q) <= p_old.to_multiset().count(q));
    }
    assert forall|q: ScoredValue<T>|
        p_new.to_multiset().count(q) > (#[trigger] k_new.to_multiset().count(q)) implies k_new.len()
        == n && (k_new.len() > 0 ==> q.score <= k_new[k_new.len() - 1].score) by {
        assert(k_new.to_multiset().count(q) == k_mid.to_multiset().count(q) + (if q == item {
            1int
        } else {
            0
        }));
        assert(k_old.to_multiset().count(q) == k_mid.to_multiset().count(q) + (if q == evicted {
            1int
        } else {
            0
        }));
        if q == item {
            assert(false);
        } else if q == evicted {
            assert(q.score <= k_new[k_new.len() - 1].score);
        } else {
            assert(p_old.to_multiset().count(q) > k_old.to_multiset().count(q));
            assert(q.score <= k_old[k_old.len() - 1].score);
        }
    }
    assert forall|s: ProbabilityT| #[trigger] scores_of(k_new).to_multiset().count(s)
        <= scores_of(p_new).to_multiset().count(s) by {
        assert(scores_of(k_new).to_multiset().count(s) == scores_of(k_mid).to_multiset().count(s)
            + (if s == item.score {
            1int
        } else {
            0
        }));
        assert(scores_of(k_old).to_multiset().count(s) == scores_of(k_mid).to_multiset().count(s)
            + (if s == evicted.score {
            1int
        } else {
            0
        }));
        assert(scores_of(k_old).to_multiset().count(s) <= scores_of(p_old).to_multiset().count(s));
    }
    assert forall|s: ProbabilityT|
        scores_of(p_new).to_multiset().count(s) > (#[trigger] scores_of(
            k_new,
        ).to_multiset().count(s)) implies k_new.len() == n && (k_new.len() > 0 ==> s
        <= k_new[k_new.len() - 1].score) by {
        assert(scores_of(k_new).to_multiset().count(s) == scores_of(k_mid).to_multiset().count(s)
            + (if s == item.score {
            1int
        } else {
            0
        }));
        assert(scores_of(k_old).to_multiset().count(s) == scores_of(k_mid).to_multiset().count(s)
            + (if s == evicted.score {
            1int
        } else {
            0
        }));
        if s == item.score {
            assert(false);
        } else if s == evicted.score {
            assert(s <= k_new[k_new.len() - 1].score);
        } else {
            assert(scores_of(p_old).to_multiset().count(s) > scores_of(
                k_old,
            ).to_multiset().count(s));
            assert(s <= k_old[k_old.len() - 1].score);
        }
    }
    assert(p_new.len() > k_new.len());
}

/// Discarding an item that does not beat the least kept element keeps the
/// selection relation.
proof fn lemma_selection_discard<T>(
    k_old: Seq<ScoredValue<T>>,
    p_old: Seq<ScoredValue<T>>,
    item: ScoredValue<T>,
    n: int,
)
    requires
        selection_ok(k_old, p_old, n),
        k_old.len() == n,
        n > 0 ==> item.score <= k_old[k_old.len() - 1].score,
    ensures
        selection_ok(k_old, seq![item] + p_old, n),
{
    broadcast use vstd::multiset::group_multiset_axioms;
    broadcast use vstd::seq_lib::group_to_multiset_ensures;

    let p_new = seq![item] + p_old;
    lemma_cons_to_multiset(item, p_old);
    lemma_scores_of_cons(item, p_old);
    lemma_cons_to_multiset(item.score, scores_of(p_old));
    assert(scores_of(p_new).to_multiset() =~= scores_of(p_old).to_multiset().insert(item.score));
    assert(p_old.len() >= n);
    assert(k_old.len() == (if n <= p_new.len() {
        n
    } else {
        p_new.len() as int
    }));
    assert forall|q: ScoredValue<T>| #[trigger] k_old.to_multiset().count(q)
        <= p_new.to_multiset().count(q) by {
        assert(k_old.to_multiset().count(q) <= p_old.to_multiset().count(q));
    }
    assert forall|q: ScoredValue<T>|
        p_new.to_multiset().count(q) > (#[trigger] k_old.to_multiset().count(q)) implies k_old.len()
        == n && (k_old.len() > 0 ==> q.score <= k_old[k_old.len() - 1].score) by {
        if q != item {
            assert(p_old.to_multiset().count(q) > k_old.to_multiset().count(q));
        }
    }
    assert forall|s: ProbabilityT| #[trigger] scores_of(k_old).to_multiset().count(s)
        <= scores_of(p_new).to_multiset().count(s) by {
        assert(scores_of(k_old).to_multiset().count(s) <= scores_of(p_old).to_multiset().count(s));
    }
    assert forall|s: ProbabilityT|
        scores_of(p_new).to_multiset().count(s) > (#[trigger] scores_of(
            k_old,
        ).to_multiset().count(s)) implies k_old.len() == n && (k_old.len() > 0 ==> s
        <= k_old[k_old.len() - 1].score) by {
        if s != item.score {
            assert(scores_of(p_old).to_multiset().count(s) > scores_of(
                k_old,
            ).to_multiset().count(s));
        }
    }
    assert(p_new.len() > k_old.len());
}

/// Inserts `item` into a vector ordered by non-increasing score, keeping the
/// order; returns the position at which the item was placed.
fn insert_sorted_desc<T>(kept: &mut Vec<ScoredValue<T>>, item: ScoredValue<T>) -> (pos: usize)
    requires
        sorted_desc(old(kept)@),
        old(kept)@.len() < usize::MAX,
    ensures
        pos <= old(kept)@.len(),
        final(kept)@ == old(kept)@.insert(pos as int, item),
        final(kept)@.len() == old(kept)@.len() + 1,
        sorted_desc(final(kept)@),
        forall|j: int| 0 <= j < pos ==> old(kept)@[j].score >= item.score,
        forall|j: int| pos <= j < old(kept)@.len() ==> old(kept)@[j].score <= item.score,
{
    let mut pos: usize = 0;
    while pos < kept.len() && kept[pos].score >= item.score
        invariant
            pos <= kept@.len(),
            kept@ == old(kept)@,
            sorted_desc(kept@),
            forall|j: int| 0 <= j < pos ==> kept@[j].score >= item.score,
        decreases kept@.len() - pos,
    {
        pos = pos + 1;
    }
    proof {
        if (pos as int) < kept@.len() {
            assert(kept@[pos as int].score < item.score);
            assert forall|j: int| pos <= j < kept@.len() implies kept@[j].score <= item.score by {
                assert(kept@[pos as int].score >= kept@[j].score);
            }
        }
        old(kept)@.insert_ensures(pos as int, item);
    }
    kept.insert(pos, item);
    proof {
        let new = kept@;
        let olds = old(kept)@;
        assert forall|i: int, j: int| 0 <= i <= j < new.len() implies new[i].score
            >= new[j].score by {
            if i < pos && j < pos {
                assert(new[i] == olds[i] && new[j] == olds[j]);
            } else if i < pos && j == pos {
                assert(new[i] == olds[i]);
            } else if i < pos && j > pos {
                assert(new[i] == olds[i] && new[j] == olds[j - 1]);
                assert(olds[j - 1].score <= item.score);
                assert(olds[i].score >= item.score);
            } else if i == pos && j > pos {
                assert(new[j] == olds[j - 1]);
                assert(olds[j - 1].score <= item.score);
            } else if i > pos && j > pos {
                assert(new[i] == olds[i - 1] && new[j] == olds[j - 1]);
            }
        }
    }
    pos
}

/// Returns the `n` elements with the highest scores from the given vector,
/// ordered by non-increasing score.
///
/// The result holds `min(n, v.len())` elements; every result element is
/// drawn from the input (counting multiplicity), and whenever an input
/// element is left out, the selection is full and the element's score is no
/// higher than the least selected score. When `n` covers the whole input the
/// result is a permutation of it. The same guarantees also hold of the score
/// sequences alone.
pub fn top_n_elements<T>(v: Vec<ScoredValue<T>>, n: usize) -> (r: Vec<ScoredValue<T>>)
    ensures
        sorted_desc(r@),
        r@.len() == (if n as int <= v@.len() {
            n as int
        } else {
            v@.len() as int
        }),
        forall|q: ScoredValue<T>| #[trigger] r@.to_multiset().count(q) <= v@.to_multiset().count(q),
        forall|q: ScoredValue<T>|
            v@.to_multiset().count(q) > (#[trigger] r@.to_multiset().count(q)) ==> r@.len() == n
                && (r@.len() > 0 ==> q.score <= r@[r@.len() - 1].score),
        forall|s: ProbabilityT| #[trigger]
            scores_of(r@).to_multiset().count(s) <= scores_of(v@).to_multiset().count(s),
        forall|s: ProbabilityT|
            scores_of(v@).to_multiset().count(s) > (#[trigger] scores_of(r@).to_multiset().count(s))
                ==> r@.len() == n && (r@.len() > 0 ==> s <= r@[r@.len() - 1].score),
        n >= v@.len() ==> r@.to_multiset() =~= v@.to_multiset() && scores_of(r@).to_multiset()
            =~= scores_of(v@).to_multiset(),
{
    let ghost orig = v@;
    let mut pending = v;
    let mut kept: Vec<ScoredValue<T>> = Vec::new();
    proof {
        broadcast use vstd::multiset::group_multiset_axioms;
        broadcast use vstd::seq_lib::group_to_multiset_ensures;

        assert(pending@ =~= orig.subrange(0, pending@.len() as int));
        assert(processed_part(orig, pending@.len() as int) =~= Seq::<ScoredValue<T>>::empty());
        assert(kept@ =~= Seq::<ScoredValue<T>>::empty());
        assert(scores_of(kept@) =~= Seq::<ProbabilityT>::empty());
        assert(Seq::<ScoredValue<T>>::empty().to_multiset().len() == 0);
        assert(Seq::<ProbabilityT>::empty().to_multiset().len() == 0);
    }
    while pending.len() > 0
        invariant
            pending@.len() <= orig.len(),
            pending@ =~= orig.subrange(0, pending@.len() as int),
            selection_ok(kept@, processed_part(orig, pending@.len() as int), n as int),
        decreases pending@.len(),
    {
        let ghost p_old = processed_part(orig, pending@.len() as int);
        let ghost k_old = kept@;
        let item = pending.pop().unwrap();
        let ghost p_new = processed_part(orig, pending@.len() as int);
        proof {
            assert(pending@ =~= orig.subrange(0, pending@.len() as int));
            assert(p_new =~= seq![item] + p_old);
        }
        if kept.len() < n {
            // the selection is not full yet: take the item unconditionally
            let pos = insert_sorted_desc(&mut kept, item);
            proof {
                lemma_to_multiset_insert(k_old, pos as int, item);
                lemma_scores_of_insert(k_old, pos as int, item);
                lemma_to_multiset_insert(scores_of(k_old), pos as int, item.score);
                lemma_selection_insert_fresh(k_old, p_old, item, kept@, n as int);
            }
        } else if n > 0 && item.score > kept[kept.len() - 1].score {
            // the selection is full and the new item beats the current
            // minimum: evict the minimum, insert the item
            let evicted = kept.pop().unwrap();
            let ghost k_mid = kept@;
            proof {
                assert(k_mid =~= k_old.drop_last());
            }
            let pos = insert_sorted_desc(&mut kept, item);
            proof {
                lemma_to_multiset_insert(k_mid, pos as int, item);
                lemma_scores_of_insert(k_mid, pos as int, item);
                lemma_to_multiset_insert(scores_of(k_mid), pos as int, item.score);
                // the new least kept score is no lower than the evicted one
                assert(kept@.len() > 0);
                let last = kept@[kept@.len() - 1];
                if pos as int == k_mid.len() {
                    assert(last == item);
                } else {
                    k_mid.insert_ensures(pos as int, item);
                    assert(last == k_mid[k_mid.len() - 1]);
                    assert(k_mid[k_mid.len() - 1] == k_old[k_old.len() - 2]);
                    assert(k_old[k_old.len() - 2].score >= evicted.score);
                }
                assert(last.score >= evicted.score);
                lemma_selection_evict(k_old, p_old, item, kept@, n as int);
            }
        } else {
            // the item is discarded: it scores no higher than the least kept
            proof {
                assert(kept@.len() == n as int);
                lemma_selection_discard(k_old, p_old, item, n as int);
            }
        }
    }
    proof {
        broadcast use vstd::multiset::group_multiset_axioms;
        broadcast use vstd::seq_lib::group_to_multiset_ensures;

        assert(processed_part(orig, 0) =~= orig);
        assert(selection_ok(kept@, orig, n as int));
    }
    kept
}

/// Law: a bounded top-n selection agrees, score for score, with the leading
/// `min(n, m)` entries of a full non-increasing sort of the same collection
/// of `m` scores. `full` is any non-increasing ordering of the collection;
/// `top` is any selection that is non-increasing, holds `min(n, m)` scores
/// drawn from the collection, and leaves out only scores that do not exceed
/// its least member — exactly what `top_n_elements` guarantees.
pub proof fn lemma_top_n_scores_match_sorted_prefix(
    full: Seq<ProbabilityT>,
    top: Seq<ProbabilityT>,
    n: int,
)
    requires
        sorted_desc_scores(full),
        sorted_desc_scores(top),
        top.len() == (if n <= full.len() {
            n
        } else {
            full.len() as int
        }),
        forall|s: ProbabilityT| #[trigger]
            top.to_multiset().count(s) <= full.to_multiset().count(s),
        forall|s: ProbabilityT|
            full.to_multiset().count(s) > (#[trigger] top.to_multiset().count(s)) ==> top.len()
                == n && (top.len() > 0 ==> s <= top[top.len() - 1]),
    ensures
        forall|i: int| 0 <= i < top.len() ==> top[i] == full[i],
    decreases top.len(),
{
    broadcast use vstd::multiset::group_multiset_axioms;
    broadcast use vstd::multiset::group_multiset_properties;
    broadcast use vstd::seq_lib::group_to_multiset_ensures;

    if top.len() > 0 {
        assert(full.len() > 0);
        // the head of the selection is the overall maximum, which is also
        // the head of the full sort
        assert(top.to_multiset().count(top[0]) > 0) by {
            assert(top.contains(top[0]));
        }
        assert(full.to_multiset().count(top[0]) > 0);
        assert(full.contains(top[0]));
        assert(top[0] <= full[0]) by {
            let j = choose|j: int| 0 <= j < full.len() && full[j] == top[0];
            assert(full[j] <= full[0]);
        }
        assert(full.to_multiset().count(full[0]) > 0) by {
            assert(full.contains(full[0]));
        }
        assert(full[0] <= top[0]) by {
            if top.to_multiset().count(full[0]) > 0 {
                assert(top.contains(full[0]));
                let j = choose|j: int| 0 <= j < top.len() && top[j] == full[0];
                assert(top[j] <= top[0]);
            } else {
                assert(full[0] <= top[top.len() - 1]);
                assert(top[top.len() - 1] <= top[0]);
            }
        }
        assert(top[0] == full[0]);

        let full2 = full.drop_first();
        let top2 = top.drop_first();
        assert(seq![full[0]] + full2 =~= full);
        assert(seq![top[0]] + top2 =~= top);
        lemma_cons_to_multiset(full[0], full2);
        lemma_cons_to_multiset(top[0], top2);
        assert(full.to_multiset() =~= full2.to_multiset().insert(full[0]));
        assert(top.to_multiset() =~= top2.to_multiset().insert(top[0]));
        assert forall|s: ProbabilityT| #[trigger] top2.to_multiset().count(s)
            <= full2.to_multiset().count(s) by {
            assert(top.to_multiset().count(s) <= full.to_multiset().count(s));
        }
        assert forall|s: ProbabilityT|
            full2.to_multiset().count(s) > (#[trigger] top2.to_multiset().count(s)) implies
            top2.len() == n - 1 && (top2.len() > 0 ==> s <= top2[top2.len() - 1]) by {
            assert(full.to_multiset().count(s) > top.to_multiset().count(s));
            if top2.len() > 0 {
                assert(top2[top2.len() - 1] == top[top.len() - 1]);
            }
        }
        lemma_top_n_scores_match_sorted_prefix(full2, top2, n - 1);
        assert forall|i: int| 0 <= i < top.len() implies top[i] == full[i] by {
            if i > 0 {
                assert(top2[i - 1] == full2[i - 1]);
                assert(top[i] == top2[i - 1]);
                assert(full[i] == full2[i - 1]);
            }
        }
    }
}

} // verus!
