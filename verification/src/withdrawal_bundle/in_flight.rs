//! Bundles that have been broadcast and not yet resolved.

use std::collections::HashSet;

use vstd::prelude::*;

use crate::enforcer::{WithdrawalBundleOutcome, WithdrawalBundleStatus};
use crate::words::words_equal;

verus! {

broadcast use vstd::std_specs::hash::group_hash_axioms;

/// Tracks BIP300 withdrawal bundles broadcast but not yet resolved, and every request index that
/// must never be selected again.
///
/// It lives in this process's memory only: a restart forgets every bundle and every index.
#[derive(Debug)]
pub struct InFlightBundles {
    /// The request indices that each broadcast, unresolved bundle consumed, by m6id.
    pending: Vec<([u8; 32], Vec<u64>)>,
    /// Every request index that must never be selected again: already paid out on Bitcoin, or
    /// already refunded after its bundle failed.
    finalized: HashSet<u64>,
}

/// What is tracked: the indices of each unresolved bundle by its m6id, and the finalized indices.
#[verifier::ext_equal]
pub struct InFlightView {
    pub pending: Map<Seq<u8>, Seq<u64>>,
    pub finalized: Set<u64>,
}

impl InFlightView {
    /// Whether `index` may be selected into a new bundle.
    pub open spec fn is_eligible(self, index: u64) -> bool {
        &&& !self.finalized.contains(index)
        &&& forall|m6id: Seq<u8>| #[trigger]
            self.pending.dom().contains(m6id) ==> !self.pending[m6id].contains(index)
    }

    /// A bundle with these indices has been broadcast.
    pub open spec fn submit(self, m6id: Seq<u8>, indices: Seq<u64>) -> InFlightView {
        InFlightView { pending: self.pending.insert(m6id, indices), ..self }
    }

    /// The tracked bundle `m6id` has reached its end, whichever it was.
    pub open spec fn finalize(self, m6id: Seq<u8>) -> InFlightView {
        InFlightView {
            pending: self.pending.remove(m6id),
            finalized: self.finalized.union(self.pending[m6id].to_set()),
        }
    }

    /// Whether `outcome` ends a bundle that is tracked.
    pub open spec fn is_ended_by(self, outcome: WithdrawalBundleOutcome) -> bool {
        &&& outcome.status != WithdrawalBundleStatus::Submitted
        &&& self.pending.dom().contains(outcome.m6id@)
    }

    /// What is tracked after `outcome`.
    pub open spec fn resolve_one(self, outcome: WithdrawalBundleOutcome) -> InFlightView {
        if self.is_ended_by(outcome) {
            self.finalize(outcome.m6id@)
        } else {
            self
        }
    }

    /// The indices to refund because of `outcome`: those of a tracked bundle that failed.
    pub open spec fn refunds_of(self, outcome: WithdrawalBundleOutcome) -> Seq<u64> {
        if self.is_ended_by(outcome) && outcome.status == WithdrawalBundleStatus::Failed {
            self.pending[outcome.m6id@]
        } else {
            Seq::empty()
        }
    }

    /// What is tracked after all of `outcomes`, in order.
    pub open spec fn resolve(self, outcomes: Seq<WithdrawalBundleOutcome>) -> InFlightView
        decreases outcomes.len(),
    {
        if outcomes.len() == 0 {
            self
        } else {
            self.resolve(outcomes.drop_last()).resolve_one(outcomes.last())
        }
    }

    /// The indices to refund because of `outcomes`, in order.
    pub open spec fn refunds(self, outcomes: Seq<WithdrawalBundleOutcome>) -> Seq<u64>
        decreases outcomes.len(),
    {
        if outcomes.len() == 0 {
            Seq::empty()
        } else {
            self.refunds(outcomes.drop_last()) + self.resolve(outcomes.drop_last()).refunds_of(
                outcomes.last(),
            )
        }
    }
}

/// The bundles of `entries` by m6id.
spec fn entries_map(entries: Seq<([u8; 32], Vec<u64>)>) -> Map<Seq<u8>, Seq<u64>>
    decreases entries.len(),
{
    if entries.len() == 0 {
        Map::empty()
    } else {
        entries_map(entries.drop_last()).insert(entries.last().0@, entries.last().1@)
    }
}

/// Whether no two of `entries` have the same m6id.
spec fn distinct_keys(entries: Seq<([u8; 32], Vec<u64>)>) -> bool {
    forall|i: int, j: int|
        0 <= i < j < entries.len() ==> (#[trigger] entries[i]).0@ != (#[trigger] entries[j]).0@
}

proof fn lemma_entries_map(entries: Seq<([u8; 32], Vec<u64>)>)
    requires
        distinct_keys(entries),
    ensures
        forall|i: int|
            0 <= i < entries.len() ==> entries_map(entries).dom().contains(
                (#[trigger] entries[i]).0@,
            ) && entries_map(entries)[entries[i].0@] == entries[i].1@,
        forall|key: Seq<u8>| #[trigger]
            entries_map(entries).dom().contains(key) ==> exists|i: int|
                0 <= i < entries.len() && (#[trigger] entries[i]).0@ == key,
    decreases entries.len(),
{
    if entries.len() > 0 {
        let rest = entries.drop_last();
        assert forall|i: int, j: int| 0 <= i < j < rest.len() implies (#[trigger] rest[i]).0@ != (
        #[trigger] rest[j]).0@ by {
            assert(entries[i].0@ != entries[j].0@);
        }
        lemma_entries_map(rest);
        assert forall|i: int| 0 <= i < entries.len() implies entries_map(entries).dom().contains(
            (#[trigger] entries[i]).0@,
        ) && entries_map(entries)[entries[i].0@] == entries[i].1@ by {
            if i < rest.len() {
                assert(rest[i] == entries[i]);
                assert(entries[i].0@ != entries[entries.len() - 1].0@);
            }
        }
        assert forall|key: Seq<u8>| #[trigger] entries_map(entries).dom().contains(key) implies
            exists|i: int| 0 <= i < entries.len() && (#[trigger] entries[i]).0@ == key by {
            if key == entries.last().0@ {
                assert(entries[entries.len() - 1].0@ == key);
            } else {
                assert(entries_map(rest).dom().contains(key));
                let i = choose|i: int| 0 <= i < rest.len() && (#[trigger] rest[i]).0@ == key;
                assert(entries[i].0@ == key);
            }
        }
    }
}

/// Dropping an entry drops its key from the map.
proof fn lemma_entries_map_remove(entries: Seq<([u8; 32], Vec<u64>)>, i: int)
    requires
        distinct_keys(entries),
        0 <= i < entries.len(),
    ensures
        distinct_keys(entries.remove(i)),
        entries_map(entries.remove(i)) == entries_map(entries).remove(entries[i].0@),
{
    let rest = entries.remove(i);
    assert forall|j: int, k: int| 0 <= j < k < rest.len() implies (#[trigger] rest[j]).0@ != (
    #[trigger] rest[k]).0@ by {
        let (a, b) = (
            if j < i {
                j
            } else {
                j + 1
            },
            if k < i {
                k
            } else {
                k + 1
            },
        );
        assert(entries[a].0@ != entries[b].0@);
    }
    lemma_entries_map(entries);
    lemma_entries_map(rest);
    let removed = entries_map(entries).remove(entries[i].0@);
    assert forall|key: Seq<u8>|
        entries_map(rest).dom().contains(key) == #[trigger] removed.dom().contains(key) && (
        entries_map(rest).dom().contains(key) ==> entries_map(rest)[key] == removed[key]) by {
        if entries_map(rest).dom().contains(key) {
            let j = choose|j: int| 0 <= j < rest.len() && (#[trigger] rest[j]).0@ == key;
            let a = if j < i {
                j
            } else {
                j + 1
            };
            assert(rest[j] == entries[a]);
            if a < i {
                assert(entries[a].0@ != entries[i].0@);
            } else {
                assert(entries[i].0@ != entries[a].0@);
            }
        }
        if removed.dom().contains(key) {
            assert(entries_map(entries).dom().contains(key));
            let a = choose|a: int| 0 <= a < entries.len() && (#[trigger] entries[a]).0@ == key;
            assert(a != i);
            let j = if a < i {
                a
            } else {
                a - 1
            };
            assert(rest[j] == entries[a]);
        }
    }
    assert(entries_map(rest) =~= removed);
}

impl View for InFlightBundles {
    type V = InFlightView;

    closed spec fn view(&self) -> InFlightView {
        InFlightView { pending: entries_map(self.pending@), finalized: self.finalized@ }
    }
}

impl InFlightBundles {
    /// Whether no bundle is tracked twice.
    pub closed spec fn wf(self) -> bool {
        distinct_keys(self.pending@)
    }

    /// The place of `m6id` among the unresolved bundles.
    fn find(&self, m6id: &[u8; 32]) -> (place: Option<usize>)
        requires
            self.wf(),
        ensures
            match place {
                Some(i) => i < self.pending@.len() && self.pending@[i as int].0@ == m6id@,
                None => !self@.pending.dom().contains(m6id@),
            },
    {
        let mut i: usize = 0;
        while i < self.pending.len()
            invariant
                i <= self.pending@.len(),
                forall|j: int| 0 <= j < i ==> (#[trigger] self.pending@[j]).0@ != m6id@,
            decreases self.pending@.len() - i,
        {
            if words_equal(&self.pending[i].0, m6id) {
                return Some(i);
            }
            i = i + 1;
        }
        proof {
            lemma_entries_map(self.pending@);
        }
        None
    }

    /// Whether `index` may be selected into a new bundle: not already finalized, and not consumed
    /// by a bundle that's still awaiting an outcome.
    pub fn is_eligible(&self, index: u64) -> (eligible: bool)
        requires
            self.wf(),
        ensures
            eligible == self@.is_eligible(index),
    {
        if self.finalized.contains(&index) {
            return false;
        }
        let mut i: usize = 0;
        while i < self.pending.len()
            invariant
                i <= self.pending@.len(),
                self.wf(),
                !self@.finalized.contains(index),
                forall|j: int| 0 <= j < i ==> !(#[trigger] self.pending@[j]).1@.contains(index),
            decreases self.pending@.len() - i,
        {
            let indices = &self.pending[i].1;
            let mut k: usize = 0;
            while k < indices.len()
                invariant
                    k <= indices@.len(),
                    i < self.pending@.len(),
                    self.wf(),
                    *indices == self.pending@[i as int].1,
                    forall|j: int| 0 <= j < k ==> #[trigger] indices@[j] != index,
                decreases indices@.len() - k,
            {
                if indices[k] == index {
                    proof {
                        lemma_entries_map(self.pending@);
                        assert(self@.pending.dom().contains(self.pending@[i as int].0@));
                        assert(self@.pending[self.pending@[i as int].0@].contains(index));
                    }
                    return false;
                }
                k = k + 1;
            }
            i = i + 1;
        }
        proof {
            lemma_entries_map(self.pending@);
            assert forall|m6id: Seq<u8>| #[trigger] self@.pending.dom().contains(m6id) implies
                !self@.pending[m6id].contains(index) by {
                let j = choose|j: int|
                    0 <= j < self.pending@.len() && (#[trigger] self.pending@[j]).0@ == m6id;
                assert(!self.pending@[j].1@.contains(index));
            }
        }
        true
    }

    /// Records a newly broadcast bundle's consumed request indices.
    pub fn record_submitted(&mut self, m6id: [u8; 32], indices: Vec<u64>)
        requires
            old(self).wf(),
        ensures
            final(self).wf(),
            final(self)@ == old(self)@.submit(m6id@, indices@),
    {
        let ghost before = self.pending@;
        if let Some(i) = self.find(&m6id) {
            proof {
                lemma_entries_map_remove(before, i as int);
            }
            self.pending.remove(i);
        }
        let ghost rest = self.pending@;
        self.pending.push((m6id, indices));
        proof {
            lemma_entries_map(before);
            lemma_entries_map(rest);
            assert(self.pending@.drop_last() =~= rest);
            assert(!entries_map(rest).dom().contains(m6id@));
            assert(entries_map(self.pending@) =~= entries_map(before).insert(m6id@, indices@));
        }
    }

    /// Stops tracking the bundle `m6id` and finalizes its indices, which it returns.
    fn finalize(&mut self, m6id: &[u8; 32]) -> (indices: Option<Vec<u64>>)
        requires
            old(self).wf(),
        ensures
            final(self).wf(),
            match indices {
                Some(indices) => {
                    &&& old(self)@.pending.dom().contains(m6id@)
                    &&& indices@ == old(self)@.pending[m6id@]
                    &&& final(self)@ == old(self)@.finalize(m6id@)
                },
                None => !old(self)@.pending.dom().contains(m6id@) && final(self)@ == old(self)@,
            },
    {
        let ghost before = self.pending@;
        let ghost finalized_before = self.finalized@;
        let place = match self.find(m6id) {
            Some(place) => place,
            None => {
                return None;
            },
        };
        proof {
            lemma_entries_map(before);
            lemma_entries_map_remove(before, place as int);
        }
        let (_, indices) = self.pending.remove(place);
        let mut k: usize = 0;
        proof {
            assert(indices@.take(0).to_set() =~= Set::empty());
        }
        while k < indices.len()
            invariant
                k <= indices@.len(),
                self.pending@ == before.remove(place as int),
                self.finalized@ == finalized_before.union(indices@.take(k as int).to_set()),
            decreases indices@.len() - k,
        {
            self.finalized.insert(indices[k]);
            proof {
                let (few, more) = (indices@.take(k as int), indices@.take(k + 1));
                assert(more =~= few.push(indices@[k as int]));
                assert forall|x: u64| more.contains(x) == (few.contains(x) || x
                    == indices@[k as int]) by {
                    if few.contains(x) {
                        let j = choose|j: int| 0 <= j < few.len() && few[j] == x;
                        assert(more[j] == x);
                    }
                    assert(more[k as int] == indices@[k as int]);
                }
                assert(finalized_before.union(few.to_set()).insert(indices@[k as int])
                    =~= finalized_before.union(more.to_set()));
            }
            k = k + 1;
        }
        proof {
            assert(indices@.take(k as int) =~= indices@);
        }
        Some(indices)
    }

    /// Resolves `outcomes` against currently-tracked bundles: on `Succeeded`, the bundle's
    /// requests are finalized (paid out, excluded forever). On `Failed`, they're also finalized,
    /// and returned here so the caller can refund them: the caller must actually credit those
    /// refunds, since this method only updates in-memory tracking. `Submitted` and outcomes for
    /// untracked m6ids (e.g. another producer's bundle, or one from before a restart) are
    /// ignored.
    pub fn resolve(&mut self, outcomes: &[WithdrawalBundleOutcome]) -> (to_refund: Vec<u64>)
        requires
            old(self).wf(),
        ensures
            final(self).wf(),
            final(self)@ == old(self)@.resolve(outcomes@),
            to_refund@ == old(self)@.refunds(outcomes@),
            forall|index: u64|
                final(self)@.is_eligible(index) == #[trigger] old(self)@.is_eligible(index),
    {
        let ghost start = self@;
        let mut to_refund: Vec<u64> = Vec::new();
        let mut i: usize = 0;
        while i < outcomes.len()
            invariant
                i <= outcomes@.len(),
                self.wf(),
                self@ == start.resolve(outcomes@.take(i as int)),
                to_refund@ == start.refunds(outcomes@.take(i as int)),
            decreases outcomes@.len() - i,
        {
            let outcome = outcomes[i];
            let ghost before = self@;
            let ghost refunds_before = to_refund@;
            proof {
                assert(outcomes@.take(i + 1).drop_last() =~= outcomes@.take(i as int));
            }
            match outcome.status {
                WithdrawalBundleStatus::Succeeded => {
                    let _ = self.finalize(&outcome.m6id);
                },
                WithdrawalBundleStatus::Failed => {
                    if let Some(mut indices) = self.finalize(&outcome.m6id) {
                        to_refund.append(&mut indices);
                    }
                },
                WithdrawalBundleStatus::Submitted => {},
            }
            proof {
                assert(self@ == before.resolve_one(outcome));
                assert(to_refund@ =~= refunds_before + before.refunds_of(outcome));
            }
            i = i + 1;
        }
        proof {
            assert(outcomes@.take(i as int) =~= outcomes@);
            assert forall|index: u64|
                start.resolve(outcomes@).is_eligible(index) == #[trigger] start.is_eligible(
                    index,
                ) by {
                lemma_resolve_keeps_eligibility(start, outcomes@, index);
            }
        }
        to_refund
    }
}

impl Default for InFlightBundles {
    /// Nothing is tracked and nothing is finalized.
    fn default() -> (bundles: Self)
        ensures
            bundles.wf(),
            bundles@ == (InFlightView { pending: Map::empty(), finalized: Set::empty() }),
    {
        InFlightBundles { pending: Vec::new(), finalized: HashSet::new() }
    }
}

/// While nothing has been submitted, every index is eligible.
pub proof fn lemma_all_eligible_at_first(index: u64)
    ensures
        (InFlightView { pending: Map::empty(), finalized: Set::empty() }).is_eligible(index),
{
}

/// Outcomes change no index's eligibility, neither way: what a bundle took in stays taken, whether
/// it was paid or refunded, and nothing else is touched.
pub proof fn lemma_resolve_keeps_eligibility(
    state: InFlightView,
    outcomes: Seq<WithdrawalBundleOutcome>,
    index: u64,
)
    ensures
        state.resolve(outcomes).is_eligible(index) == state.is_eligible(index),
    decreases outcomes.len(),
{
    if outcomes.len() > 0 {
        lemma_resolve_keeps_eligibility(state, outcomes.drop_last(), index);
        let before = state.resolve(outcomes.drop_last());
        let outcome = outcomes.last();
        let after = before.resolve_one(outcome);
        if before.is_ended_by(outcome) {
            let indices = before.pending[outcome.m6id@];
            assert(indices.to_set().contains(index) == indices.contains(index));
            if before.is_eligible(index) {
                assert forall|m6id: Seq<u8>| #[trigger] after.pending.dom().contains(
                    m6id,
                ) implies !after.pending[m6id].contains(index) by {
                    assert(before.pending.dom().contains(m6id));
                }
            } else if !before.finalized.contains(index) {
                let m6id = choose|m6id: Seq<u8>| #[trigger]
                    before.pending.dom().contains(m6id) && before.pending[m6id].contains(index);
                if m6id != outcome.m6id@ {
                    assert(after.pending.dom().contains(m6id));
                }
            }
        }
    }
}

/// A finalized index stays finalized, and so is never eligible again, through every outcome and
/// every further submission.
pub proof fn lemma_finalized_forever(
    state: InFlightView,
    outcomes: Seq<WithdrawalBundleOutcome>,
    m6id: Seq<u8>,
    indices: Seq<u64>,
    index: u64,
)
    requires
        state.finalized.contains(index),
    ensures
        state.resolve(outcomes).finalized.contains(index),
        state.submit(m6id, indices).finalized.contains(index),
        !state.resolve(outcomes).is_eligible(index),
        !state.submit(m6id, indices).is_eligible(index),
    decreases outcomes.len(),
{
    if outcomes.len() > 0 {
        lemma_finalized_forever(state, outcomes.drop_last(), m6id, indices, index);
    }
}

/// Submitted indices are not eligible while their bundle awaits its outcome, and every other index
/// is as eligible as before a submission of a new bundle.
pub proof fn lemma_submit_excludes(
    state: InFlightView,
    m6id: Seq<u8>,
    indices: Seq<u64>,
    index: u64,
)
    requires
        !state.pending.dom().contains(m6id),
    ensures
        state.submit(m6id, indices).is_eligible(index) == (state.is_eligible(index)
            && !indices.contains(index)),
{
    let after = state.submit(m6id, indices);
    assert(after.pending.dom().contains(m6id));
    assert forall|other: Seq<u8>| #[trigger] state.pending.dom().contains(other) implies
        after.pending.dom().contains(other) && after.pending[other] == state.pending[other] by {}
    if state.is_eligible(index) && !indices.contains(index) {
        assert forall|other: Seq<u8>| #[trigger] after.pending.dom().contains(other) implies
            !after.pending[other].contains(index) by {
            if other != m6id {
                assert(state.pending.dom().contains(other));
            }
        }
    }
    if after.is_eligible(index) {
        assert(!after.pending[m6id].contains(index));
        assert forall|other: Seq<u8>| #[trigger] state.pending.dom().contains(other) implies
            !state.pending[other].contains(index) by {
            assert(after.pending.dom().contains(other));
        }
    }
}

/// Whatever is refunded is finalized too, so it is never selected again.
pub proof fn lemma_refunded_is_finalized(
    state: InFlightView,
    outcomes: Seq<WithdrawalBundleOutcome>,
    index: u64,
)
    requires
        state.refunds(outcomes).contains(index),
    ensures
        state.resolve(outcomes).finalized.contains(index),
        !state.resolve(outcomes).is_eligible(index),
    decreases outcomes.len(),
{
    if outcomes.len() > 0 {
        let earlier = state.refunds(outcomes.drop_last());
        let before = state.resolve(outcomes.drop_last());
        let last = before.refunds_of(outcomes.last());
        let i = choose|i: int|
            0 <= i < state.refunds(outcomes).len() && state.refunds(outcomes)[i] == index;
        if i < earlier.len() {
            assert(earlier[i] == index);
            lemma_refunded_is_finalized(state, outcomes.drop_last(), index);
        } else {
            assert(last[i - earlier.len()] == index);
            assert(before.pending[outcomes.last().m6id@].to_set().contains(index));
        }
    }
}

/// A bundle is resolved once: a repeated outcome changes nothing and refunds nothing.
pub proof fn lemma_outcome_counts_once(state: InFlightView, outcome: WithdrawalBundleOutcome)
    ensures
        state.resolve_one(outcome).resolve_one(outcome) == state.resolve_one(outcome),
        state.resolve_one(outcome).refunds_of(outcome) == Seq::<u64>::empty(),
{
}

proof fn lemma_ended_is_not_tracked(
    state: InFlightView,
    outcomes: Seq<WithdrawalBundleOutcome>,
    m6id: Seq<u8>,
)
    requires
        !state.pending.dom().contains(m6id) || exists|i: int|
            0 <= i < outcomes.len() && (#[trigger] outcomes[i]).m6id@ == m6id
                && outcomes[i].status != WithdrawalBundleStatus::Submitted,
    ensures
        !state.resolve(outcomes).pending.dom().contains(m6id),
    decreases outcomes.len(),
{
    if outcomes.len() > 0 {
        let rest = outcomes.drop_last();
        let last = outcomes.last();
        if last.m6id@ != m6id || last.status == WithdrawalBundleStatus::Submitted {
            if state.pending.dom().contains(m6id) {
                let i = choose|i: int|
                    0 <= i < outcomes.len() && (#[trigger] outcomes[i]).m6id@ == m6id
                        && outcomes[i].status != WithdrawalBundleStatus::Submitted;
                assert(rest[i].m6id@ == m6id);
            }
            lemma_ended_is_not_tracked(state, rest, m6id);
        }
    }
}

/// Outcomes none of which ends a tracked bundle change nothing and refund nothing.
pub proof fn lemma_idle_outcomes(state: InFlightView, outcomes: Seq<WithdrawalBundleOutcome>)
    requires
        forall|i: int| 0 <= i < outcomes.len() ==> !state.is_ended_by(#[trigger] outcomes[i]),
    ensures
        state.resolve(outcomes) == state,
        state.refunds(outcomes) == Seq::<u64>::empty(),
    decreases outcomes.len(),
{
    if outcomes.len() > 0 {
        let rest = outcomes.drop_last();
        assert forall|i: int| 0 <= i < rest.len() implies !state.is_ended_by(
            #[trigger] rest[i],
        ) by {
            assert(!state.is_ended_by(outcomes[i]));
        }
        lemma_idle_outcomes(state, rest);
        assert(!state.is_ended_by(outcomes[outcomes.len() - 1]));
        assert(state.refunds(outcomes) =~= Seq::<u64>::empty());
    }
}

/// Resolving the same outcomes a second time changes nothing and refunds nothing.
pub proof fn lemma_resolve_counts_once(
    state: InFlightView,
    outcomes: Seq<WithdrawalBundleOutcome>,
)
    ensures
        state.resolve(outcomes).resolve(outcomes) == state.resolve(outcomes),
        state.resolve(outcomes).refunds(outcomes) == Seq::<u64>::empty(),
{
    let after = state.resolve(outcomes);
    assert forall|i: int| 0 <= i < outcomes.len() implies !after.is_ended_by(
        #[trigger] outcomes[i],
    ) by {
        if outcomes[i].status != WithdrawalBundleStatus::Submitted {
            lemma_ended_is_not_tracked(state, outcomes, outcomes[i].m6id@);
        }
    }
    lemma_idle_outcomes(after, outcomes);
}

/// A report that a bundle was submitted, and any report on a bundle that is not tracked, changes
/// nothing and refunds nothing.
pub proof fn lemma_ignored_outcomes(state: InFlightView, outcome: WithdrawalBundleOutcome)
    requires
        outcome.status == WithdrawalBundleStatus::Submitted || !state.pending.dom().contains(
            outcome.m6id@,
        ),
    ensures
        state.resolve_one(outcome) == state,
        state.refunds_of(outcome) == Seq::<u64>::empty(),
{
}

/// Outcomes are resolved one after the other: what is refunded first comes first.
pub proof fn lemma_outcomes_add_up(
    state: InFlightView,
    a: Seq<WithdrawalBundleOutcome>,
    b: Seq<WithdrawalBundleOutcome>,
)
    ensures
        state.resolve(a + b) == state.resolve(a).resolve(b),
        state.refunds(a + b) == state.refunds(a) + state.resolve(a).refunds(b),
    decreases b.len(),
{
    if b.len() == 0 {
        assert(a + b =~= a);
        assert(state.refunds(a) + Seq::<u64>::empty() =~= state.refunds(a));
    } else {
        let rest = b.drop_last();
        assert((a + b).drop_last() =~= a + rest);
        lemma_outcomes_add_up(state, a, rest);
        assert(state.refunds(a + b) =~= state.refunds(a) + state.resolve(a).refunds(b));
    }
}

proof fn lemma_one_outcome(state: InFlightView, outcome: WithdrawalBundleOutcome)
    ensures
        state.resolve(seq![outcome]) == state.resolve_one(outcome),
        state.refunds(seq![outcome]) == state.refunds_of(outcome),
{
    assert(seq![outcome].drop_last() =~= Seq::empty());
    reveal_with_fuel(InFlightView::resolve, 2);
    reveal_with_fuel(InFlightView::refunds, 2);
    assert(Seq::<u64>::empty() + state.refunds_of(outcome) =~= state.refunds_of(outcome));
}

/// A bundle that was submitted and failed is refunded once, all of its requests and in the order in
/// which they were submitted. One that succeeded is not, and neither is one that still waits, which
/// goes on waiting.
pub proof fn lemma_submitted_bundle_is_resolved(
    state: InFlightView,
    m6id: [u8; 32],
    indices: Seq<u64>,
    last: WithdrawalBundleStatus,
)
    ensures
        ({
            let waiting = state.submit(m6id@, indices);
            let submitted = WithdrawalBundleOutcome {
                m6id,
                status: WithdrawalBundleStatus::Submitted,
            };
            let succeeded = WithdrawalBundleOutcome {
                m6id,
                status: WithdrawalBundleStatus::Succeeded,
            };
            let failed = WithdrawalBundleOutcome { m6id, status: WithdrawalBundleStatus::Failed };
            let again = WithdrawalBundleOutcome { m6id, status: last };
            &&& waiting.refunds(seq![failed]) == indices
            &&& waiting.refunds(seq![succeeded]) == Seq::<u64>::empty()
            &&& waiting.refunds(seq![submitted]) == Seq::<u64>::empty()
            &&& waiting.resolve(seq![submitted]) == waiting
            &&& waiting.resolve(seq![failed]).refunds(seq![again]) == Seq::<u64>::empty()
            &&& waiting.resolve(seq![succeeded]).refunds(seq![again]) == Seq::<u64>::empty()
            &&& waiting.resolve(seq![failed]).resolve(seq![again]) == waiting.resolve(seq![failed])
            &&& waiting.resolve(seq![succeeded]) == waiting.resolve(seq![failed])
        }),
{
    let waiting = state.submit(m6id@, indices);
    let submitted = WithdrawalBundleOutcome { m6id, status: WithdrawalBundleStatus::Submitted };
    let succeeded = WithdrawalBundleOutcome { m6id, status: WithdrawalBundleStatus::Succeeded };
    let failed = WithdrawalBundleOutcome { m6id, status: WithdrawalBundleStatus::Failed };
    let again = WithdrawalBundleOutcome { m6id, status: last };
    lemma_one_outcome(waiting, submitted);
    lemma_one_outcome(waiting, succeeded);
    lemma_one_outcome(waiting, failed);
    lemma_one_outcome(waiting.resolve(seq![failed]), again);
    lemma_one_outcome(waiting.resolve(seq![succeeded]), again);
}

/// What becomes of one bundle does not touch another: it is refunded, and goes on being tracked, as
/// if the other had never been submitted.
pub proof fn lemma_bundles_do_not_mix(
    state: InFlightView,
    m6id: Seq<u8>,
    indices: Seq<u64>,
    outcome: WithdrawalBundleOutcome,
)
    requires
        outcome.m6id@ != m6id,
    ensures
        state.submit(m6id, indices).refunds(seq![outcome]) == state.refunds(seq![outcome]),
        state.submit(m6id, indices).resolve(seq![outcome]) == state.resolve(seq![outcome]).submit(
            m6id,
            indices,
        ),
{
    let waiting = state.submit(m6id, indices);
    lemma_one_outcome(state, outcome);
    lemma_one_outcome(waiting, outcome);
    assert(waiting.pending.dom().contains(outcome.m6id@) == state.pending.dom().contains(
        outcome.m6id@,
    ));
    if state.is_ended_by(outcome) {
        assert(waiting.resolve_one(outcome).pending =~= state.resolve_one(outcome).pending.insert(
            m6id,
            indices,
        ));
    }
    assert(waiting.resolve_one(outcome) =~= state.resolve_one(outcome).submit(m6id, indices));
}

/// Where nothing is tracked, no outcome refunds or changes anything.
pub proof fn lemma_nothing_tracked_nothing_refunded(
    finalized: Set<u64>,
    outcomes: Seq<WithdrawalBundleOutcome>,
)
    ensures
        ({
            let state = InFlightView { pending: Map::empty(), finalized };
            &&& state.refunds(outcomes) == Seq::<u64>::empty()
            &&& state.resolve(outcomes) == state
        }),
{
    lemma_idle_outcomes(InFlightView { pending: Map::empty(), finalized }, outcomes);
}

/// A bundle that is submitted again is tracked with the indices of the last time only.
pub proof fn lemma_resubmission_replaces(
    state: InFlightView,
    m6id: Seq<u8>,
    indices: Seq<u64>,
    later: Seq<u64>,
)
    ensures
        state.submit(m6id, indices).submit(m6id, later) == state.submit(m6id, later),
{
    assert(state.pending.insert(m6id, indices).insert(m6id, later) =~= state.pending.insert(
        m6id,
        later,
    ));
}

} // verus!
