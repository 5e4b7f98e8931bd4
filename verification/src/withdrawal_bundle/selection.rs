//! Selects the requests of a withdrawal bundle.

use vstd::prelude::*;

use super::m6::{
    build_withdrawal_bundle, commitment, commitment_preimage, lemma_commitment_is_hashed,
    lemma_m6_outputs, lemma_predicted_weight_is_exact, m6_transaction, output_views, outputs_size,
    weight_with_treasury_input, TxOut, TxOutView, WithdrawalBundle,
};
use super::queue::{request_views, PendingWithdrawal, RequestView};
use super::ranking::{
    capped, fit_together, has_destination, is_payable, is_ranking, lemma_all_that_fits_is_paid,
    lemma_bundle_conserves_value, lemma_longest_fit, lemma_no_later_total,
    lemma_no_later_transitive, lemma_payouts_in_full, lemma_ranking_unique,
    lemma_selection_is_maximal, lemma_total_permuted, no_later, offered_fee, paid_indices,
    payout_outputs, payout_to, payouts_size, ranking, selected, total_among, total_fee,
    total_value, weight_of_paying, Payout,
};
use super::weight::{predict_weight, txout_len, txout_size, MAX_STANDARD_WEIGHT};
use crate::bags::{gather, lemma_gather_permuted, lemma_map_permuted, lemma_permuted_contains};
use crate::hash::keccak;
use crate::order::{
    bytes_equal, is_ascending, is_lex_le, lemma_ascending_numbers, lemma_lex_antisymmetric,
    lemma_lex_total, lemma_lex_transitive, lex_le, sort_ascending, Ranked,
};
use crate::words::{be_nat, saturate_u64};

verus! {

/// A destination, with what its requests ask for together.
struct AggregatedWithdrawal<'a> {
    btc_destination: &'a Vec<u8>,
    value_sats: u64,
    main_fee_sats: u64,
    request_indices: Vec<u64>,
}

/// A request, ranked by its destination.
#[derive(Clone, Copy)]
struct ByDestination<'a> {
    request: &'a PendingWithdrawal,
}

/// A destination, ranked by the order in which a bundle considers it.
#[derive(Clone, Copy)]
struct ByRank<'a, 'b> {
    aggregated: &'b AggregatedWithdrawal<'a>,
}

impl<'a> AggregatedWithdrawal<'a> {
    spec fn payout(self) -> Payout {
        Payout {
            btc_destination: self.btc_destination@,
            value_sats: self.value_sats,
            main_fee_sats: self.main_fee_sats,
        }
    }

    /// Whether this sums up the requests for its destination.
    spec fn sums_up(self, requests: Seq<RequestView>) -> bool {
        &&& self.payout() == payout_to(requests, self.btc_destination@)
        &&& self.request_indices@.to_multiset() == indices_for(requests, self.btc_destination@)
    }
}

impl<'a> Ranked for ByDestination<'a> {
    closed spec fn leq(self, other: Self) -> bool {
        lex_le(self.request.btc_destination@, other.request.btc_destination@)
    }

    proof fn lemma_total(a: Self, b: Self) {
        lemma_lex_total(a.request.btc_destination@, b.request.btc_destination@);
    }

    proof fn lemma_transitive(a: Self, b: Self, c: Self) {
        lemma_lex_transitive(
            a.request.btc_destination@,
            b.request.btc_destination@,
            c.request.btc_destination@,
        );
    }

    fn is_leq(self, other: Self) -> (r: bool) {
        is_lex_le(&self.request.btc_destination, &other.request.btc_destination)
    }
}

impl<'a, 'b> Ranked for ByRank<'a, 'b> {
    closed spec fn leq(self, other: Self) -> bool {
        no_later(self.aggregated.payout(), other.aggregated.payout())
    }

    proof fn lemma_total(a: Self, b: Self) {
        lemma_no_later_total(a.aggregated.payout(), b.aggregated.payout());
    }

    proof fn lemma_transitive(a: Self, b: Self, c: Self) {
        lemma_no_later_transitive(
            a.aggregated.payout(),
            b.aggregated.payout(),
            c.aggregated.payout(),
        );
    }

    fn is_leq(self, other: Self) -> (r: bool) {
        let (a, b) = (self.aggregated, other.aggregated);
        if a.main_fee_sats != b.main_fee_sats {
            a.main_fee_sats > b.main_fee_sats
        } else if a.value_sats != b.value_sats {
            a.value_sats > b.value_sats
        } else {
            is_lex_le(b.btc_destination, a.btc_destination)
        }
    }
}

/// The indices of the requests for `destination`, each as often as it occurs.
spec fn indices_for(
    requests: Seq<RequestView>,
    destination: Seq<u8>,
) -> vstd::multiset::Multiset<u64> {
    gather(
        requests,
        |request: RequestView| request.btc_destination == destination,
        |request: RequestView| request.index,
    )
}

/// The destinations of `groups`.
spec fn group_destinations(groups: Seq<AggregatedWithdrawal<'_>>) -> Seq<Seq<u8>> {
    groups.map_values(|group: AggregatedWithdrawal<'_>| group.btc_destination@)
}

/// Whether `groups` sums up `requests`, each destination once.
spec fn aggregates(groups: Seq<AggregatedWithdrawal<'_>>, requests: Seq<RequestView>) -> bool {
    &&& forall|k: int| 0 <= k < groups.len() ==> (#[trigger] groups[k]).sums_up(requests)
    &&& group_destinations(groups).no_duplicates()
    &&& forall|destination: Seq<u8>|
        #[trigger] group_destinations(groups).contains(destination) <==> has_destination(
            requests,
            destination,
        )
}

/// How one more request changes what is summed up for a destination.
proof fn lemma_totals_push(requests: Seq<RequestView>, request: RequestView, destination: Seq<u8>)
    ensures
        ({
            let more = requests.push(request);
            let same = request.btc_destination == destination;
            &&& total_value(more, destination) == total_value(requests, destination) + if same {
                request.value_sats as nat
            } else {
                0
            }
            &&& total_fee(more, destination) == total_fee(requests, destination) + if same {
                request.main_fee_sats as nat
            } else {
                0
            }
            &&& indices_for(more, destination) == if same {
                indices_for(requests, destination).insert(request.index)
            } else {
                indices_for(requests, destination)
            }
        }),
{
    assert(requests.push(request).drop_last() =~= requests);
}

/// Nothing is summed up for a destination that no request asks for.
proof fn lemma_totals_absent(requests: Seq<RequestView>, destination: Seq<u8>)
    requires
        !has_destination(requests, destination),
    ensures
        total_value(requests, destination) == 0,
        total_fee(requests, destination) == 0,
        indices_for(requests, destination) == vstd::multiset::Multiset::<u64>::empty(),
    decreases requests.len(),
{
    if requests.len() > 0 {
        let rest = requests.drop_last();
        assert forall|i: int| 0 <= i < rest.len() implies (#[trigger] rest[i]).btc_destination
            != destination by {
            assert(requests[i].btc_destination != destination);
        }
        assert(requests[requests.len() - 1].btc_destination != destination);
        lemma_totals_absent(rest, destination);
    }
}

/// Rearranging the requests changes nothing of what is summed up for a destination.
proof fn lemma_totals_permuted(a: Seq<RequestView>, b: Seq<RequestView>, destination: Seq<u8>)
    requires
        a.to_multiset() == b.to_multiset(),
    ensures
        payout_to(a, destination) == payout_to(b, destination),
        indices_for(a, destination) == indices_for(b, destination),
        has_destination(a, destination) ==> has_destination(b, destination),
{
    lemma_total_permuted(a, b, destination, |request: RequestView| request.value_sats as nat);
    lemma_total_permuted(a, b, destination, |request: RequestView| request.main_fee_sats as nat);
    lemma_gather_permuted(
        a,
        b,
        |request: RequestView| request.btc_destination == destination,
        |request: RequestView| request.index,
    );
    if has_destination(a, destination) {
        let i = choose|i: int|
            0 <= i < a.len() && (#[trigger] a[i]).btc_destination == destination;
        assert(a.contains(a[i]));
        lemma_permuted_contains(a, b, a[i]);
        let j = choose|j: int| 0 <= j < b.len() && b[j] == a[i];
        assert(b[j].btc_destination == destination);
    }
}

/// A group for a destination that `requests` did not hold yet.
proof fn lemma_aggregate_new(
    groups: Seq<AggregatedWithdrawal<'_>>,
    requests: Seq<RequestView>,
    group: AggregatedWithdrawal<'_>,
    request: RequestView,
)
    requires
        aggregates(groups, requests),
        !has_destination(requests, request.btc_destination),
        group.btc_destination@ == request.btc_destination,
        group.value_sats == request.value_sats,
        group.main_fee_sats == request.main_fee_sats,
        group.request_indices@ == seq![request.index],
    ensures
        aggregates(groups.push(group), requests.push(request)),
{
    let more_groups = groups.push(group);
    let more = requests.push(request);
    let new = request.btc_destination;
    lemma_totals_absent(requests, new);
    lemma_totals_push(requests, request, new);
    assert(seq![request.index] =~= Seq::<u64>::empty().push(request.index));
    vstd::seq_lib::to_multiset_build(Seq::<u64>::empty(), request.index);
    vstd::seq_lib::to_multiset_len(Seq::<u64>::empty());
    assert(Seq::<u64>::empty().to_multiset() =~= vstd::multiset::Multiset::<u64>::empty());
    assert(group.sums_up(more));
    let before = group_destinations(groups);
    let after = group_destinations(more_groups);
    assert(after =~= before.push(new));
    assert(!before.contains(new));
    assert forall|k: int| 0 <= k < more_groups.len() implies (#[trigger] more_groups[k]).sums_up(
        more,
    ) by {
        if k < groups.len() {
            assert(groups[k].sums_up(requests));
            assert(before[k] == groups[k].btc_destination@);
            assert(before.contains(before[k]));
            lemma_totals_push(requests, request, before[k]);
        }
    }
    lemma_destinations_push(before, requests, request, new);
}

/// A group for a destination that `requests` already held, which is that of the last group.
proof fn lemma_aggregate_again(
    groups: Seq<AggregatedWithdrawal<'_>>,
    requests: Seq<RequestView>,
    group: AggregatedWithdrawal<'_>,
    request: RequestView,
)
    requires
        groups.len() > 0,
        aggregates(groups, requests),
        groups.last().btc_destination@ == request.btc_destination,
        group.btc_destination@ == request.btc_destination,
        group.value_sats == saturate_u64(
            (groups.last().value_sats + request.value_sats) as nat,
        ),
        group.main_fee_sats == saturate_u64(
            (groups.last().main_fee_sats + request.main_fee_sats) as nat,
        ),
        group.request_indices@ == groups.last().request_indices@.push(request.index),
    ensures
        aggregates(groups.drop_last().push(group), requests.push(request)),
{
    let more_groups = groups.drop_last().push(group);
    let more = requests.push(request);
    let destination = request.btc_destination;
    let n = groups.len() - 1;
    assert(groups[n].sums_up(requests));
    lemma_totals_push(requests, request, destination);
    vstd::seq_lib::to_multiset_build(groups.last().request_indices@, request.index);
    assert(group.sums_up(more));
    let before = group_destinations(groups);
    let after = group_destinations(more_groups);
    assert(after =~= before);
    assert forall|k: int| 0 <= k < more_groups.len() implies (#[trigger] more_groups[k]).sums_up(
        more,
    ) by {
        if k < n {
            assert(groups[k].sums_up(requests));
            assert(before[k] == groups[k].btc_destination@);
            assert(before[k] != before[n]);
            lemma_totals_push(requests, request, before[k]);
        }
    }
    assert(before[n] == destination);
    assert(before.contains(destination));
    lemma_destinations_again(before, requests, request);
}

proof fn lemma_destinations_push(
    destinations: Seq<Seq<u8>>,
    requests: Seq<RequestView>,
    request: RequestView,
    new: Seq<u8>,
)
    requires
        request.btc_destination == new,
        !destinations.contains(new),
        destinations.no_duplicates(),
        forall|d: Seq<u8>| #[trigger] destinations.contains(d) <==> has_destination(requests, d),
    ensures
        destinations.push(new).no_duplicates(),
        forall|d: Seq<u8>|
            #[trigger] destinations.push(new).contains(d) <==> has_destination(
                requests.push(request),
                d,
            ),
{
    let after = destinations.push(new);
    assert forall|d: Seq<u8>| #[trigger] after.contains(d) <==> has_destination(
        requests.push(request),
        d,
    ) by {
        lemma_has_destination_push(requests, request, d);
        if d == new {
            assert(after[destinations.len() as int] == new);
        } else if destinations.contains(d) {
            let k = choose|k: int| 0 <= k < destinations.len() && destinations[k] == d;
            assert(after[k] == d);
        } else if after.contains(d) {
            let k = choose|k: int| 0 <= k < after.len() && after[k] == d;
            assert(destinations[k] == d);
        }
    }
}

proof fn lemma_destinations_again(
    destinations: Seq<Seq<u8>>,
    requests: Seq<RequestView>,
    request: RequestView,
)
    requires
        destinations.contains(request.btc_destination),
        forall|d: Seq<u8>| #[trigger] destinations.contains(d) <==> has_destination(requests, d),
    ensures
        forall|d: Seq<u8>|
            #[trigger] destinations.contains(d) <==> has_destination(requests.push(request), d),
{
    assert forall|d: Seq<u8>| #[trigger] destinations.contains(d) <==> has_destination(
        requests.push(request),
        d,
    ) by {
        lemma_has_destination_push(requests, request, d);
    }
}

proof fn lemma_has_destination_push(
    requests: Seq<RequestView>,
    request: RequestView,
    destination: Seq<u8>,
)
    ensures
        has_destination(requests.push(request), destination) == (has_destination(
            requests,
            destination,
        ) || request.btc_destination == destination),
{
    let more = requests.push(request);
    if has_destination(requests, destination) {
        let i = choose|i: int|
            0 <= i < requests.len() && (#[trigger] requests[i]).btc_destination == destination;
        assert(more[i].btc_destination == destination);
    }
    if request.btc_destination == destination {
        assert(more[requests.len() as int].btc_destination == destination);
    }
    if has_destination(more, destination) {
        let i = choose|i: int|
            0 <= i < more.len() && (#[trigger] more[i]).btc_destination == destination;
        if i < requests.len() {
            assert(requests[i].btc_destination == destination);
        }
    }
}

/// The pending requests, put together by destination.
fn aggregate_by_destination<'a>(pending: &'a [PendingWithdrawal]) -> (groups: Vec<
    AggregatedWithdrawal<'a>,
>)
    ensures
        aggregates(groups@, request_views(pending@)),
{
    let mut unsorted: Vec<ByDestination<'a>> = Vec::new();
    let mut i: usize = 0;
    while i < pending.len()
        invariant
            i <= pending.len(),
            unsorted@.len() == i,
            forall|k: int| 0 <= k < i ==> unsorted@[k].request@ == (#[trigger] pending@[k])@,
        decreases pending.len() - i,
    {
        unsorted.push(ByDestination { request: &pending[i] });
        i = i + 1;
    }
    let sorted = sort_ascending(unsorted.as_slice());
    let ghost view_of = |item: ByDestination<'a>| item.request@;
    let ghost requests = sorted@.map_values(view_of);
    proof {
        lemma_map_permuted(sorted@, unsorted@, view_of);
        assert(unsorted@.map_values(view_of) =~= request_views(pending@));
    }
    let mut groups: Vec<AggregatedWithdrawal<'a>> = Vec::new();
    let mut i: usize = 0;
    proof {
        assert(requests.take(0) =~= Seq::empty());
        assert(group_destinations(groups@) =~= Seq::empty());
    }
    while i < sorted.len()
        invariant
            i <= sorted.len(),
            requests == sorted@.map_values(view_of),
            view_of == (|item: ByDestination<'a>| item.request@),
            is_ascending(sorted@),
            aggregates(groups@, requests.take(i as int)),
            i > 0 ==> groups@.len() > 0 && groups@.last().btc_destination@ == requests[i
                - 1].btc_destination,
            i == 0 ==> groups@.len() == 0,
        decreases sorted.len() - i,
    {
        let request = sorted[i].request;
        let ghost done = requests.take(i as int);
        proof {
            assert(requests[i as int] == request@);
            assert(requests.take(i + 1) =~= done.push(request@));
        }
        let repeats = if groups.len() == 0 {
            false
        } else {
            bytes_equal(groups[groups.len() - 1].btc_destination, &request.btc_destination)
        };
        let ghost before = groups@;
        if repeats {
            let last = groups.pop();
            if let Some(mut group) = last {
                proof {
                    assert(group == before.last());
                }
                group.value_sats = group.value_sats.saturating_add(request.value_sats);
                group.main_fee_sats = group.main_fee_sats.saturating_add(request.main_fee_sats);
                group.request_indices.push(request.index);
                proof {
                    lemma_aggregate_again(before, done, group, request@);
                }
                groups.push(group);
            }
        } else {
            let mut request_indices: Vec<u64> = Vec::new();
            request_indices.push(request.index);
            let group = AggregatedWithdrawal {
                btc_destination: &request.btc_destination,
                value_sats: request.value_sats,
                main_fee_sats: request.main_fee_sats,
                request_indices,
            };
            proof {
                if has_destination(done, request@.btc_destination) {
                    let k = choose|k: int|
                        0 <= k < done.len() && (#[trigger] done[k]).btc_destination
                            == request@.btc_destination;
                    assert(sorted@[k].leq(sorted@[i - 1]));
                    assert(sorted@[i - 1].leq(sorted@[i as int]));
                    lemma_lex_antisymmetric(
                        requests[i - 1].btc_destination,
                        request@.btc_destination,
                    );
                }
                lemma_aggregate_new(before, done, group, request@);
            }
            groups.push(group);
        }
        i = i + 1;
    }
    proof {
        assert(requests.take(i as int) =~= requests);
        lemma_aggregates_permuted(groups@, requests, request_views(pending@));
    }
    groups
}

proof fn lemma_aggregates_permuted(
    groups: Seq<AggregatedWithdrawal<'_>>,
    a: Seq<RequestView>,
    b: Seq<RequestView>,
)
    requires
        a.to_multiset() == b.to_multiset(),
        aggregates(groups, a),
    ensures
        aggregates(groups, b),
{
    assert forall|k: int| 0 <= k < groups.len() implies (#[trigger] groups[k]).sums_up(b) by {
        assert(groups[k].sums_up(a));
        lemma_totals_permuted(a, b, groups[k].btc_destination@);
    }
    assert forall|destination: Seq<u8>|
        #[trigger] group_destinations(groups).contains(destination) <==> has_destination(
            b,
            destination,
        ) by {
        lemma_totals_permuted(a, b, destination);
        lemma_totals_permuted(b, a, destination);
    }
}

/// The destinations of `groups`, ranked.
spec fn ranked_destinations(ranked: Seq<ByRank<'_, '_>>) -> Seq<Seq<u8>> {
    ranked.map_values(|item: ByRank<'_, '_>| item.aggregated.btc_destination@)
}

/// The groups in the order in which a bundle considers them.
fn rank_groups<'a, 'b>(
    groups: &'b Vec<AggregatedWithdrawal<'a>>,
    Ghost(requests): Ghost<Seq<RequestView>>,
) -> (ranked: Vec<ByRank<'a, 'b>>)
    requires
        aggregates(groups@, requests),
    ensures
        ranked_destinations(ranked@) == ranking(requests),
        ranked_destinations(ranked@).no_duplicates(),
        forall|k: int|
            0 <= k < ranked@.len() ==> (#[trigger] ranked@[k]).aggregated.sums_up(requests),
{
    let mut unranked: Vec<ByRank<'a, 'b>> = Vec::new();
    let mut i: usize = 0;
    while i < groups.len()
        invariant
            i <= groups.len(),
            unranked@.len() == i,
            forall|k: int| 0 <= k < i ==> *unranked@[k].aggregated == #[trigger] groups@[k],
        decreases groups.len() - i,
    {
        unranked.push(ByRank { aggregated: &groups[i] });
        i = i + 1;
    }
    let ranked = sort_ascending(unranked.as_slice());
    proof {
        let destination_of = |item: ByRank<'a, 'b>| item.aggregated.btc_destination@;
        lemma_map_permuted(ranked@, unranked@, destination_of);
        let order = ranked_destinations(ranked@);
        let destinations = group_destinations(groups@);
        assert(ranked@.map_values(destination_of) =~= order);
        assert(unranked@.map_values(destination_of) =~= destinations);
        destinations.lemma_multiset_has_no_duplicates();
        order.lemma_multiset_has_no_duplicates_conv();
        assert forall|k: int| 0 <= k < ranked@.len() implies (
        #[trigger] ranked@[k]).aggregated.sums_up(requests) by {
            assert(ranked@.contains(ranked@[k]));
            lemma_permuted_contains(ranked@, unranked@, ranked@[k]);
            let l = choose|l: int| 0 <= l < unranked@.len() && unranked@[l] == ranked@[k];
            assert(groups@[l].sums_up(requests));
        }
        assert forall|destination: Seq<u8>|
            #[trigger] order.contains(destination) <==> has_destination(requests, destination) by {
            lemma_permuted_contains(order, destinations, destination);
        }
        assert forall|a: int, b: int| 0 <= a <= b < order.len() implies no_later(
            payout_to(requests, #[trigger] order[a]),
            payout_to(requests, #[trigger] order[b]),
        ) by {
            assert(ranked@[a].leq(ranked@[b]));
            assert(ranked@[a].aggregated.sums_up(requests));
            assert(ranked@[b].aggregated.sums_up(requests));
        }
        assert(is_ranking(requests, order));
        lemma_ranking_unique(requests, order);
    }
    ranked
}

/// The requests that a bundle takes in, and what it pays for them.
#[derive(Debug, Clone)]
pub struct Selection {
    /// The indices of the requests, in ascending order.
    pub request_indices: Vec<u64>,
    pub total_main_fee_sats: u64,
    pub outputs: Vec<TxOut>,
}

/// Taking in one more destination takes in its requests.
proof fn lemma_paid_indices_push(
    requests: Seq<RequestView>,
    destinations: Seq<Seq<u8>>,
    destination: Seq<u8>,
)
    requires
        !destinations.contains(destination),
    ensures
        paid_indices(requests, destinations.push(destination)) == paid_indices(
            requests,
            destinations,
        ).add(indices_for(requests, destination)),
    decreases requests.len(),
{
    let more = destinations.push(destination);
    let keep = |request: RequestView| destinations.contains(request.btc_destination);
    let keep_more = |request: RequestView| more.contains(request.btc_destination);
    let keep_one = |request: RequestView| request.btc_destination == destination;
    let key = |request: RequestView| request.index;
    assert(paid_indices(requests, destinations) == gather(requests, keep, key));
    assert(paid_indices(requests, more) == gather(requests, keep_more, key));
    assert(indices_for(requests, destination) == gather(requests, keep_one, key));
    if requests.len() > 0 {
        let rest = requests.drop_last();
        lemma_paid_indices_push(rest, destinations, destination);
        assert(paid_indices(rest, destinations) == gather(rest, keep, key));
        assert(paid_indices(rest, more) == gather(rest, keep_more, key));
        assert(indices_for(rest, destination) == gather(rest, keep_one, key));
        let last = requests.last().btc_destination;
        if destinations.contains(last) {
            let k = choose|k: int| 0 <= k < destinations.len() && destinations[k] == last;
            assert(more[k] == last);
        }
        if last == destination {
            assert(more[destinations.len() as int] == last);
        }
        if more.contains(last) && last != destination {
            let k = choose|k: int| 0 <= k < more.len() && more[k] == last;
            assert(destinations[k] == last);
        }
    }
    assert(paid_indices(requests, more) =~= paid_indices(requests, destinations).add(
        indices_for(requests, destination),
    ));
}

proof fn lemma_no_indices(requests: Seq<RequestView>)
    ensures
        paid_indices(requests, Seq::empty()) == vstd::multiset::Multiset::<u64>::empty(),
    decreases requests.len(),
{
    if requests.len() > 0 {
        lemma_no_indices(requests.drop_last());
        let none = Seq::<Seq<u8>>::empty();
        let keep = |request: RequestView| none.contains(request.btc_destination);
        let key = |request: RequestView| request.index;
        assert(paid_indices(requests, none) == gather(requests, keep, key));
        assert(paid_indices(requests.drop_last(), none) == gather(
            requests.drop_last(),
            keep,
            key,
        ));
    }
}

/// Going through the ranked destinations until one does not fit finds those that a bundle pays.
proof fn lemma_greedy(requests: Seq<RequestView>, order: Seq<Seq<u8>>, n: int, full: bool)
    requires
        order == ranking(requests),
        0 <= n <= order.len(),
        ({
            let chosen = order.take(n).filter(|destination: Seq<u8>| is_payable(destination));
            &&& fit_together(chosen)
            &&& !full ==> n == order.len()
            &&& full ==> n < order.len() && is_payable(order[n]) && !fit_together(
                chosen.push(order[n]),
            )
        }),
    ensures
        selected(requests) == order.take(n).filter(
            |destination: Seq<u8>| is_payable(destination),
        ),
{
    let keep = |destination: Seq<u8>| is_payable(destination);
    let payable = order.filter(keep);
    let chosen = order.take(n).filter(keep);
    if full {
        let rest = order.skip(n + 1);
        assert(order =~= order.take(n).push(order[n]) + rest);
        Seq::filter_distributes_over_add(order.take(n).push(order[n]), rest, keep);
        lemma_filter_push(order.take(n), order[n], keep);
        assert(payable =~= chosen.push(order[n]) + rest.filter(keep));
        assert(payable.take(chosen.len() as int) =~= chosen);
        assert(payable.take(chosen.len() as int + 1) =~= chosen.push(order[n]));
    } else {
        assert(order.take(n) =~= order);
        assert(payable.take(chosen.len() as int) =~= chosen);
    }
    lemma_longest_fit(payable, chosen.len() as int);
}

proof fn lemma_filter_push(items: Seq<Seq<u8>>, item: Seq<u8>, keep: spec_fn(Seq<u8>) -> bool)
    ensures
        items.push(item).filter(keep) == if keep(item) {
            items.filter(keep).push(item)
        } else {
            items.filter(keep)
        },
{
    reveal(Seq::filter);
    assert(items.push(item).drop_last() =~= items);
}

/// Selects destinations (highest fee first) for as long as the transaction that pays them stays
/// within Bitcoin's standard weight. Returns `None` if there is nothing to pay.
pub fn select_payouts(pending: &[PendingWithdrawal]) -> (selection: Option<Selection>)
    ensures
        ({
            let requests = request_views(pending@);
            let destinations = selected(requests);
            match selection {
                None => destinations.len() == 0,
                Some(selection) => {
                    &&& destinations.len() > 0
                    &&& is_ascending(selection.request_indices@)
                    &&& selection.request_indices@.to_multiset() == paid_indices(
                        requests,
                        destinations,
                    )
                    &&& selection.total_main_fee_sats == offered_fee(requests, destinations)
                    &&& output_views(selection.outputs@) == payout_outputs(requests, destinations)
                },
            }
        }),
{
    let ghost requests = request_views(pending@);
    let groups = aggregate_by_destination(pending);
    let ranked = rank_groups(&groups, Ghost(requests));
    let ghost order = ranked_destinations(ranked@);
    let ghost keep = |destination: Seq<u8>| is_payable(destination);
    let ghost mut chosen: Seq<Seq<u8>> = Seq::empty();
    let mut request_indices: Vec<u64> = Vec::new();
    let mut outputs: Vec<TxOut> = Vec::new();
    let mut txouts_size: u32 = 0;
    let mut total_main_fee_sats: u64 = 0;
    let mut full = false;
    let mut i: usize = 0;
    proof {
        reveal(Seq::filter);
        assert(order.take(0).filter(keep) =~= chosen);
        lemma_no_indices(requests);
        vstd::seq_lib::to_multiset_len(Seq::<u64>::empty());
        assert(request_indices@.to_multiset() =~= paid_indices(requests, chosen));
        assert(output_views(outputs@) =~= payout_outputs(requests, chosen));
    }
    while i < ranked.len() && !full
        invariant
            i <= ranked.len(),
            order == ranked_destinations(ranked@),
            order.no_duplicates(),
            keep == (|destination: Seq<u8>| is_payable(destination)),
            forall|k: int|
                0 <= k < ranked@.len() ==> (#[trigger] ranked@[k]).aggregated.sums_up(requests),
            chosen == order.take(i as int).filter(keep),
            forall|k: int|
                0 <= k < chosen.len() ==> order.take(i as int).contains(#[trigger] chosen[k]),
            fit_together(chosen),
            full ==> i < order.len() && is_payable(order[i as int]) && !fit_together(
                chosen.push(order[i as int]),
            ),
            txouts_size == payouts_size(chosen),
            request_indices@.to_multiset() == paid_indices(requests, chosen),
            total_main_fee_sats == offered_fee(requests, chosen),
            output_views(outputs@) == payout_outputs(requests, chosen),
            outputs@.len() == chosen.len(),
        decreases ranked.len() - i + if full { 0int } else { 1 },
    {
        let group = ranked[i].aggregated;
        let ghost destination = order[i as int];
        let ghost before = chosen;
        proof {
            assert(ranked@[i as int].aggregated.sums_up(requests));
            assert(destination == group.btc_destination@);
            assert(order.take(i + 1) =~= order.take(i as int).push(destination));
            lemma_filter_push(order.take(i as int), destination, keep);
            assert(chosen.push(destination).drop_last() =~= chosen);
            assert(payouts_size(chosen.push(destination)) == payouts_size(chosen) + txout_len(
                destination.len(),
            ));
        }
        let payable_size: Option<u32> = if group.btc_destination.len() > u32::MAX as usize {
            // No output can carry such a script, but others might be fine.
            None
        } else {
            txout_size(group.btc_destination.len() as u32)
        };
        if let Some(this_txout_size) = payable_size {
            let n_outputs: u32 = (outputs.len() + 1) as u32;
            let fitting_size: Option<u32> = match txouts_size.checked_add(this_txout_size) {
                Some(sum_txout_sizes) => if predict_weight(n_outputs, sum_txout_sizes).is_some() {
                    Some(sum_txout_sizes)
                } else {
                    None
                },
                None => None,
            };
            if let Some(sum_txout_sizes) = fitting_size {
                txouts_size = sum_txout_sizes;
                let script_pubkey = group.btc_destination.clone();
                proof {
                    assert(script_pubkey@ =~= destination);
                    if chosen.contains(destination) {
                        let k = choose|k: int| 0 <= k < chosen.len() && chosen[k] == destination;
                        assert(order.take(i as int).contains(chosen[k]));
                        let l = choose|l: int|
                            0 <= l < order.take(i as int).len() && order.take(i as int)[l]
                                == destination;
                        assert(order[l] == order[i as int]);
                    }
                    lemma_paid_indices_push(requests, chosen, destination);
                    vstd::seq_lib::lemma_multiset_commutative(
                        request_indices@,
                        group.request_indices@,
                    );
                }
                let ghost outputs_before = outputs@;
                let ghost indices_before = request_indices@;
                outputs.push(TxOut { value_sats: group.value_sats, script_pubkey });
                request_indices.extend_from_slice(group.request_indices.as_slice());
                total_main_fee_sats = total_main_fee_sats.saturating_add(group.main_fee_sats);
                proof {
                    chosen = chosen.push(destination);
                    assert(request_indices@ =~= indices_before + group.request_indices@);
                    assert(output_views(outputs@) =~= output_views(outputs_before).push(
                        outputs@.last()@,
                    ));
                    assert(payout_outputs(requests, chosen) =~= payout_outputs(
                        requests,
                        before,
                    ).push(
                        TxOutView {
                            value_sats: payout_to(requests, destination).value_sats,
                            script_pubkey: destination,
                        },
                    ));
                    assert forall|k: int| 0 <= k < chosen.len() implies order.take(
                        i + 1,
                    ).contains(#[trigger] chosen[k]) by {
                        if k < before.len() {
                            assert(order.take(i as int).contains(before[k]));
                            let l = choose|l: int|
                                0 <= l < order.take(i as int).len() && order.take(i as int)[l]
                                    == before[k];
                            assert(order.take(i + 1)[l] == chosen[k]);
                        } else {
                            assert(order.take(i + 1)[i as int] == chosen[k]);
                        }
                    }
                }
                i = i + 1;
            } else {
                full = true;
            }
        } else {
            proof {
                assert forall|k: int| 0 <= k < chosen.len() implies order.take(i + 1).contains(
                    #[trigger] chosen[k],
                ) by {
                    assert(order.take(i as int).contains(chosen[k]));
                    let l = choose|l: int|
                        0 <= l < order.take(i as int).len() && order.take(i as int)[l]
                            == chosen[k];
                    assert(order.take(i + 1)[l] == chosen[k]);
                }
            }
            i = i + 1;
        }
    }
    proof {
        lemma_greedy(requests, order, i as int, full);
    }
    if outputs.len() == 0 {
        return None;
    }
    let request_indices = sort_ascending(request_indices.as_slice());
    Some(Selection { request_indices, total_main_fee_sats, outputs })
}

proof fn lemma_payouts_size(requests: Seq<RequestView>, destinations: Seq<Seq<u8>>)
    ensures
        outputs_size(payout_outputs(requests, destinations)) == payouts_size(destinations),
    decreases destinations.len(),
{
    if destinations.len() > 0 {
        assert(payout_outputs(requests, destinations).drop_last() =~= payout_outputs(
            requests,
            destinations.drop_last(),
        ));
        lemma_payouts_size(requests, destinations.drop_last());
    }
}

/// Whether `bundle` is the one for `requests` at `block_height`: it pays the selected destinations
/// and no others, names the requests that it pays in ascending order, and stays within the standard
/// weight.
pub open spec fn is_bundle_for(
    bundle: WithdrawalBundle,
    requests: Seq<RequestView>,
    block_height: u32,
) -> bool {
    let destinations = selected(requests);
    &&& is_ascending(bundle.request_indices@)
    &&& bundle.request_indices@.to_multiset() == paid_indices(requests, destinations)
    &&& commitment(bundle.request_indices@, block_height).len() == 32
    &&& bundle.tx@ == m6_transaction(
        offered_fee(requests, destinations),
        commitment(bundle.request_indices@, block_height),
        payout_outputs(requests, destinations),
    )
    &&& weight_with_treasury_input(bundle.tx@) <= MAX_STANDARD_WEIGHT
}

/// Puts `pending` together by destination, then selects destinations (highest fee first) into a
/// bundle, stopping once its transaction would exceed Bitcoin's standard weight limit.
///
/// Returns `None` if there are no pending withdrawals, or none fit in a single bundle.
pub fn select_withdrawal_bundle(
    pending: &[PendingWithdrawal],
    block_height: u32,
) -> (bundle: Option<WithdrawalBundle>)
    ensures
        match bundle {
            None => selected(request_views(pending@)).len() == 0,
            Some(bundle) => selected(request_views(pending@)).len() > 0 && is_bundle_for(
                bundle,
                request_views(pending@),
                block_height,
            ),
        },
{
    match select_payouts(pending) {
        Some(selection) => {
            let bundle = build_withdrawal_bundle(
                block_height,
                selection.total_main_fee_sats,
                selection.request_indices,
                selection.outputs,
            );
            proof {
                let requests = request_views(pending@);
                lemma_selection_is_maximal(requests);
                lemma_payouts_size(requests, selected(requests));
                lemma_predicted_weight_is_exact(
                    offered_fee(requests, selected(requests)),
                    commitment(bundle.request_indices@, block_height),
                    payout_outputs(requests, selected(requests)),
                );
            }
            Some(bundle)
        },
        None => None,
    }
}

/// What a bundle holds, field by field. It names in ascending order the requests for what it pays;
/// its transaction spends nothing yet, and its outputs are the fee that these requests offer in
/// all, the hash of their indices and the height, and a payout to each destination of all that is
/// asked for it.
pub proof fn lemma_bundle_fields(
    bundle: WithdrawalBundle,
    requests: Seq<RequestView>,
    block_height: u32,
)
    requires
        is_bundle_for(bundle, requests, block_height),
    ensures
        ({
            let (indices, tx, paid) = (bundle.request_indices@, bundle.tx, selected(requests));
            let (fee, hash) = (tx.output@[0], tx.output@[1]);
            &&& forall|i: int, j: int|
                0 <= i <= j < indices.len() ==> #[trigger] indices[i] <= #[trigger] indices[j]
            &&& indices.to_multiset() == paid_indices(requests, paid)
            &&& tx.version == 2
            &&& tx.lock_time == 0
            &&& tx.input@.len() == 0
            &&& tx.output@.len() == 2 + paid.len()
            &&& fee.value_sats == 0
            &&& fee.script_pubkey@.take(2) == seq![0x6au8, 8]
            &&& fee.script_pubkey@.len() == 10
            &&& be_nat(fee.script_pubkey@.skip(2)) == capped(
                total_among(requests, paid, |request: RequestView| request.main_fee_sats as nat),
            )
            &&& hash.value_sats == 0
            &&& hash.script_pubkey@.take(2) == seq![0x6au8, 32]
            &&& hash.script_pubkey@.skip(2) == keccak(commitment_preimage(indices, block_height))
            &&& forall|i: int|
                0 <= i < paid.len() ==> {
                    &&& tx.output@[i + 2].script_pubkey@ == #[trigger] paid[i]
                    &&& tx.output@[i + 2].value_sats == capped(total_value(requests, paid[i]))
                }
        }),
{
    let (indices, tx, paid) = (bundle.request_indices@, bundle.tx, selected(requests));
    let digest = commitment(indices, block_height);
    let payouts = payout_outputs(requests, paid);
    assert forall|i: int, j: int| 0 <= i <= j < indices.len() implies #[trigger] indices[i]
        <= #[trigger] indices[j] by {
        lemma_ascending_numbers(indices, i, j);
    }
    lemma_m6_outputs(offered_fee(requests, paid), digest, payouts);
    lemma_bundle_conserves_value(requests);
    lemma_commitment_is_hashed(indices, block_height);
    assert(tx@.output.len() == tx.output@.len());
    assert(tx@.input.len() == tx.input@.len());
    assert(tx@.output[0] == tx.output@[0]@);
    assert(tx@.output[1] == tx.output@[1]@);
    assert(tx.output@[0].script_pubkey@.take(2) =~= seq![0x6au8, 8]);
    assert(tx.output@[1].script_pubkey@.take(2) =~= seq![0x6au8, 32]);
    assert forall|i: int| 0 <= i < paid.len() implies {
        &&& tx.output@[i + 2].script_pubkey@ == #[trigger] paid[i]
        &&& tx.output@[i + 2].value_sats == capped(total_value(requests, paid[i]))
    } by {
        lemma_payouts_in_full(requests, paid, i);
        assert(tx@.output[i + 2] == tx.output@[i + 2]@);
        assert(tx@.output[i + 2] == payouts[i]);
    }
}

/// Where all destinations, of scripts of at most 10000 bytes, fit in the standard weight together,
/// the bundle names every request and has an output to the script of each, of all that is asked for
/// that script.
pub proof fn lemma_bundle_pays_all_that_fits(
    bundle: WithdrawalBundle,
    requests: Seq<RequestView>,
    destinations: Seq<Seq<u8>>,
    block_height: u32,
    i: int,
)
    requires
        is_bundle_for(bundle, requests, block_height),
        0 <= i < requests.len(),
        forall|k: int|
            0 <= k < requests.len() ==> destinations.contains(
                (#[trigger] requests[k]).btc_destination,
            ),
        forall|k: int| 0 <= k < destinations.len() ==> (#[trigger] destinations[k]).len() <= 10_000,
        weight_of_paying(destinations) <= 400_000,
    ensures
        selected(requests).len() > 0,
        bundle.request_indices@.contains(requests[i].index),
        exists|k: int|
            {
                &&& 2 <= k < bundle.tx.output@.len()
                &&& (#[trigger] bundle.tx.output@[k]).script_pubkey@ == requests[i].btc_destination
                &&& bundle.tx.output@[k].value_sats == capped(
                    total_value(requests, requests[i].btc_destination),
                )
            },
{
    let paid = selected(requests);
    lemma_all_that_fits_is_paid(requests, destinations, i);
    lemma_bundle_fields(bundle, requests, block_height);
    bundle.request_indices@.to_multiset_ensures();
    let j = choose|j: int| 0 <= j < paid.len() && paid[j] == requests[i].btc_destination;
    assert(bundle.tx.output@[j + 2].script_pubkey@ == paid[j]);
}

} // verus!
