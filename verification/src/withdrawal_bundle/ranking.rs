//! Which destinations a bundle pays, and in which order.

use vstd::multiset::Multiset;
use vstd::prelude::*;

use super::m6::TxOutView;
use super::queue::RequestView;
use super::weight::{bundle_fits, txout_len};
use crate::bags::{
    gather, lemma_gather_permuted, lemma_permuted_contains, lemma_sum_permuted, sum_over,
};
use crate::order::{lemma_lex_antisymmetric, lemma_lex_total, lemma_lex_transitive, lex_le};
use crate::words::saturate_u64;

verus! {

/// What all requests for one destination ask for together.
#[verifier::ext_equal]
pub struct Payout {
    pub btc_destination: Seq<u8>,
    pub value_sats: u64,
    pub main_fee_sats: u64,
}

/// What `amount` comes to over the requests for `destination`.
pub open spec fn total_for(
    requests: Seq<RequestView>,
    destination: Seq<u8>,
    amount: spec_fn(RequestView) -> nat,
) -> nat {
    sum_over(
        requests,
        |request: RequestView|
            if request.btc_destination == destination {
                amount(request)
            } else {
                0
            },
    )
}

/// What `amount` comes to over the requests for any of `destinations`.
pub open spec fn total_among(
    requests: Seq<RequestView>,
    destinations: Seq<Seq<u8>>,
    amount: spec_fn(RequestView) -> nat,
) -> nat {
    sum_over(
        requests,
        |request: RequestView|
            if destinations.contains(request.btc_destination) {
                amount(request)
            } else {
                0
            },
    )
}

/// The satoshis that `requests` ask to be paid to `destination`.
pub open spec fn total_value(requests: Seq<RequestView>, destination: Seq<u8>) -> nat {
    total_for(requests, destination, |request: RequestView| request.value_sats as nat)
}

/// The satoshis that `requests` offer as mainchain fee for `destination`.
pub open spec fn total_fee(requests: Seq<RequestView>, destination: Seq<u8>) -> nat {
    total_for(requests, destination, |request: RequestView| request.main_fee_sats as nat)
}

/// The requests for `destination` put together, with amounts that stop at the largest `u64`.
pub open spec fn payout_to(requests: Seq<RequestView>, destination: Seq<u8>) -> Payout {
    Payout {
        btc_destination: destination,
        value_sats: saturate_u64(total_value(requests, destination)),
        main_fee_sats: saturate_u64(total_fee(requests, destination)),
    }
}

/// Whether some request asks for `destination`.
pub open spec fn has_destination(requests: Seq<RequestView>, destination: Seq<u8>) -> bool {
    exists|i: int|
        0 <= i < requests.len() && (#[trigger] requests[i]).btc_destination == destination
}

/// The order in which payouts enter a bundle: the higher fee first, then the higher value, then
/// the lexicographically greater destination. `a` comes no later than `b`.
pub open spec fn no_later(a: Payout, b: Payout) -> bool {
    if a.main_fee_sats != b.main_fee_sats {
        a.main_fee_sats > b.main_fee_sats
    } else if a.value_sats != b.value_sats {
        a.value_sats > b.value_sats
    } else {
        lex_le(b.btc_destination, a.btc_destination)
    }
}

/// Whether `order` lists each destination of `requests` once, in the order of [`no_later`].
pub open spec fn is_ranking(requests: Seq<RequestView>, order: Seq<Seq<u8>>) -> bool {
    &&& order.no_duplicates()
    &&& forall|destination: Seq<u8>|
        #[trigger] order.contains(destination) <==> has_destination(requests, destination)
    &&& forall|i: int, j: int|
        0 <= i <= j < order.len() ==> no_later(
            payout_to(requests, #[trigger] order[i]),
            payout_to(requests, #[trigger] order[j]),
        )
}

/// The destinations of `requests` in the order of [`no_later`].
pub open spec fn ranking(requests: Seq<RequestView>) -> Seq<Seq<u8>> {
    choose|order: Seq<Seq<u8>>| is_ranking(requests, order)
}

/// Whether the size of an output to `destination` can be counted in 32 bits.
pub open spec fn is_payable(destination: Seq<u8>) -> bool {
    txout_len(destination.len()) <= u32::MAX
}

/// Bytes of the outputs to `destinations`.
pub open spec fn payouts_size(destinations: Seq<Seq<u8>>) -> nat {
    sum_over(destinations, |destination: Seq<u8>| txout_len(destination.len()))
}

/// Whether one bundle can pay all of `destinations`.
pub open spec fn fit_together(destinations: Seq<Seq<u8>>) -> bool {
    bundle_fits(destinations.len(), payouts_size(destinations))
}

/// The longest prefix of `destinations` that one bundle can pay.
pub open spec fn longest_fit(destinations: Seq<Seq<u8>>) -> Seq<Seq<u8>>
    decreases destinations.len(),
{
    if destinations.len() == 0 || fit_together(destinations) {
        destinations
    } else {
        longest_fit(destinations.drop_last())
    }
}

/// The destinations that a bundle for `requests` pays, in order.
pub open spec fn selected(requests: Seq<RequestView>) -> Seq<Seq<u8>> {
    longest_fit(ranking(requests).filter(|destination: Seq<u8>| is_payable(destination)))
}

/// The outputs that pay `destinations`.
pub open spec fn payout_outputs(
    requests: Seq<RequestView>,
    destinations: Seq<Seq<u8>>,
) -> Seq<TxOutView> {
    destinations.map_values(
        |destination: Seq<u8>|
            TxOutView {
                value_sats: payout_to(requests, destination).value_sats,
                script_pubkey: destination,
            },
    )
}

/// The mainchain fee that the requests for `destinations` offer together, up to the largest `u64`.
pub open spec fn offered_fee(requests: Seq<RequestView>, destinations: Seq<Seq<u8>>) -> u64 {
    saturate_u64(
        sum_over(destinations, |destination: Seq<u8>| total_fee(requests, destination)),
    )
}

/// The indices of the requests for `destinations`, each as often as it occurs.
pub open spec fn paid_indices(
    requests: Seq<RequestView>,
    destinations: Seq<Seq<u8>>,
) -> Multiset<u64> {
    gather(
        requests,
        |request: RequestView| destinations.contains(request.btc_destination),
        |request: RequestView| request.index,
    )
}

pub proof fn lemma_no_later_total(a: Payout, b: Payout)
    ensures
        no_later(a, b) || no_later(b, a),
{
    lemma_lex_total(a.btc_destination, b.btc_destination);
}

pub proof fn lemma_no_later_transitive(a: Payout, b: Payout, c: Payout)
    requires
        no_later(a, b),
        no_later(b, c),
    ensures
        no_later(a, c),
{
    if a.main_fee_sats == c.main_fee_sats && a.value_sats == c.value_sats {
        lemma_lex_transitive(c.btc_destination, b.btc_destination, a.btc_destination);
    }
}

pub proof fn lemma_no_later_antisymmetric(a: Payout, b: Payout)
    requires
        no_later(a, b),
        no_later(b, a),
    ensures
        a == b,
{
    lemma_lex_antisymmetric(a.btc_destination, b.btc_destination);
}

/// Each destination of `requests` once, in some order.
proof fn lemma_distinct_destinations(requests: Seq<RequestView>) -> (distinct: Seq<Seq<u8>>)
    ensures
        distinct.no_duplicates(),
        forall|destination: Seq<u8>|
            #[trigger] distinct.contains(destination) <==> has_destination(requests, destination),
    decreases requests.len(),
{
    if requests.len() == 0 {
        Seq::empty()
    } else {
        let rest = requests.drop_last();
        let last = requests.last().btc_destination;
        let before = lemma_distinct_destinations(rest);
        let distinct = if before.contains(last) {
            before
        } else {
            before.push(last)
        };
        assert forall|destination: Seq<u8>| #[trigger] distinct.contains(destination) implies
            has_destination(requests, destination) by {
            if before.contains(destination) {
                assert(has_destination(rest, destination));
                let i = choose|i: int|
                    0 <= i < rest.len() && (#[trigger] rest[i]).btc_destination == destination;
                assert(requests[i].btc_destination == destination);
            } else {
                let i = choose|i: int| 0 <= i < distinct.len() && distinct[i] == destination;
                assert(i == before.len());
                assert(requests[requests.len() - 1].btc_destination == destination);
            }
        }
        assert forall|destination: Seq<u8>| has_destination(requests, destination) implies
            #[trigger] distinct.contains(destination) by {
            let i = choose|i: int|
                0 <= i < requests.len() && (#[trigger] requests[i]).btc_destination == destination;
            if i < rest.len() {
                assert(rest[i].btc_destination == destination);
                assert(before.contains(destination));
                let k = choose|k: int| 0 <= k < before.len() && before[k] == destination;
                assert(distinct[k] == destination);
            } else if !before.contains(last) {
                assert(distinct[before.len() as int] == destination);
            }
        }
        assert(distinct.no_duplicates());
        distinct
    }
}

/// Every list of requests has a ranking.
pub proof fn lemma_ranking_exists(requests: Seq<RequestView>)
    ensures
        is_ranking(requests, ranking(requests)),
{
    let distinct = lemma_distinct_destinations(requests);
    let leq = |a: Seq<u8>, b: Seq<u8>|
        no_later(payout_to(requests, a), payout_to(requests, b));
    assert(vstd::relations::total_ordering(leq)) by {
        assert forall|a: Seq<u8>| #[trigger] leq(a, a) by {
            lemma_no_later_total(payout_to(requests, a), payout_to(requests, a));
        }
        assert forall|a: Seq<u8>, b: Seq<u8>| #[trigger] leq(a, b) && #[trigger] leq(b, a) implies
            a == b by {
            lemma_no_later_antisymmetric(payout_to(requests, a), payout_to(requests, b));
        }
        assert forall|a: Seq<u8>, b: Seq<u8>, c: Seq<u8>| #[trigger]
            leq(a, b) && #[trigger] leq(b, c) implies leq(a, c) by {
            lemma_no_later_transitive(
                payout_to(requests, a),
                payout_to(requests, b),
                payout_to(requests, c),
            );
        }
        assert forall|a: Seq<u8>, b: Seq<u8>| #[trigger] leq(a, b) || #[trigger] leq(b, a) by {
            lemma_no_later_total(payout_to(requests, a), payout_to(requests, b));
        }
    }
    distinct.lemma_sort_by_ensures(leq);
    let order = distinct.sort_by(leq);
    distinct.lemma_multiset_has_no_duplicates();
    order.lemma_multiset_has_no_duplicates_conv();
    assert forall|destination: Seq<u8>| #[trigger] order.contains(destination) <==> has_destination(
        requests,
        destination,
    ) by {
        lemma_permuted_contains(distinct, order, destination);
    }
    assert forall|i: int, j: int| 0 <= i <= j < order.len() implies no_later(
        payout_to(requests, #[trigger] order[i]),
        payout_to(requests, #[trigger] order[j]),
    ) by {
        if i < j {
            assert(leq(order[i], order[j]));
        } else {
            assert(leq(order[i], order[i]));
        }
    }
    assert(is_ranking(requests, order));
}

/// Two rankings of the same requests agree in their first `n` places.
proof fn lemma_rankings_agree(requests: Seq<RequestView>, a: Seq<Seq<u8>>, b: Seq<Seq<u8>>, n: nat)
    requires
        is_ranking(requests, a),
        is_ranking(requests, b),
        n <= a.len(),
    ensures
        n <= b.len(),
        a.take(n as int) == b.take(n as int),
    decreases n,
{
    if n > 0 {
        let m = (n - 1) as nat;
        lemma_rankings_agree(requests, a, b, m);
        let x = a[m as int];
        assert(a.contains(x));
        assert(b.contains(x));
        let k = choose|k: int| 0 <= k < b.len() && b[k] == x;
        if k < m {
            assert(a.take(m as int)[k] == b.take(m as int)[k]);
            assert(a[k] == a[m as int]);
        }
        let y = b[m as int];
        assert(b.contains(y));
        assert(a.contains(y));
        let l = choose|l: int| 0 <= l < a.len() && a[l] == y;
        if l < m {
            assert(a.take(m as int)[l] == b.take(m as int)[l]);
            assert(b[l] == b[m as int]);
        }
        assert(no_later(payout_to(requests, a[m as int]), payout_to(requests, a[l])));
        assert(no_later(payout_to(requests, b[m as int]), payout_to(requests, b[k])));
        lemma_no_later_antisymmetric(payout_to(requests, x), payout_to(requests, y));
        assert(a.take(n as int) =~= a.take(m as int).push(x));
        assert(b.take(n as int) =~= b.take(m as int).push(y));
    } else {
        assert(a.take(0) =~= b.take(0));
    }
}

/// The order in which a bundle considers destinations is the only one of its kind.
pub proof fn lemma_ranking_unique(requests: Seq<RequestView>, order: Seq<Seq<u8>>)
    requires
        is_ranking(requests, order),
    ensures
        order == ranking(requests),
{
    lemma_ranking_exists(requests);
    let other = ranking(requests);
    lemma_rankings_agree(requests, order, other, order.len());
    lemma_rankings_agree(requests, other, order, other.len());
    assert(order.take(order.len() as int) =~= order);
    assert(other.take(other.len() as int) =~= other);
}

/// Rearranging the requests keeps the totals.
pub proof fn lemma_total_permuted(
    a: Seq<RequestView>,
    b: Seq<RequestView>,
    destination: Seq<u8>,
    amount: spec_fn(RequestView) -> nat,
)
    requires
        a.to_multiset() == b.to_multiset(),
    ensures
        total_for(a, destination, amount) == total_for(b, destination, amount),
{
    lemma_sum_permuted(
        a,
        b,
        |request: RequestView|
            if request.btc_destination == destination {
                amount(request)
            } else {
                0
            },
    );
}

/// A bundle is canonical: the order in which the requests are listed changes neither which
/// destinations it pays, nor their order, nor any amount, nor which requests it takes in.
pub proof fn lemma_selection_ignores_order(a: Seq<RequestView>, b: Seq<RequestView>)
    requires
        a.to_multiset() == b.to_multiset(),
    ensures
        selected(a) == selected(b),
        payout_outputs(a, selected(a)) == payout_outputs(b, selected(b)),
        offered_fee(a, selected(a)) == offered_fee(b, selected(b)),
        paid_indices(a, selected(a)) == paid_indices(b, selected(b)),
{
    assert forall|destination: Seq<u8>|
        total_value(a, destination) == total_value(b, destination) && #[trigger] total_fee(
            a,
            destination,
        ) == total_fee(b, destination) && payout_to(a, destination) == payout_to(
            b,
            destination,
        ) by {
        lemma_total_permuted(a, b, destination, |request: RequestView| request.value_sats as nat);
        lemma_total_permuted(
            a,
            b,
            destination,
            |request: RequestView| request.main_fee_sats as nat,
        );
    }
    lemma_ranking_exists(a);
    let order = ranking(a);
    assert forall|destination: Seq<u8>| has_destination(a, destination) == #[trigger]
        has_destination(b, destination) by {
        if has_destination(a, destination) {
            lemma_has_destination_permuted(a, b, destination);
        }
        if has_destination(b, destination) {
            lemma_has_destination_permuted(b, a, destination);
        }
    }
    assert forall|i: int, j: int| 0 <= i <= j < order.len() implies no_later(
        payout_to(b, #[trigger] order[i]),
        payout_to(b, #[trigger] order[j]),
    ) by {
        assert(total_fee(a, order[i]) == total_fee(b, order[i]));
        assert(total_fee(a, order[j]) == total_fee(b, order[j]));
    }
    assert(is_ranking(b, order));
    lemma_ranking_unique(b, order);
    let destinations = selected(a);
    assert(payout_outputs(a, destinations) =~= payout_outputs(b, destinations)) by {
        assert forall|i: int| 0 <= i < destinations.len() implies payout_to(
            a,
            #[trigger] destinations[i],
        ) == payout_to(b, destinations[i]) by {
            assert(total_fee(a, destinations[i]) == total_fee(b, destinations[i]));
        }
    }
    assert((|destination: Seq<u8>| total_fee(a, destination)) =~= (|destination: Seq<u8>|
        total_fee(b, destination)));
    lemma_gather_permuted(
        a,
        b,
        |request: RequestView| destinations.contains(request.btc_destination),
        |request: RequestView| request.index,
    );
}

proof fn lemma_has_destination_permuted(
    a: Seq<RequestView>,
    b: Seq<RequestView>,
    destination: Seq<u8>,
)
    requires
        a.to_multiset() == b.to_multiset(),
        has_destination(a, destination),
    ensures
        has_destination(b, destination),
{
    let i = choose|i: int|
        0 <= i < a.len() && (#[trigger] a[i]).btc_destination == destination;
    assert(a.contains(a[i]));
    lemma_permuted_contains(a, b, a[i]);
    let j = choose|j: int| 0 <= j < b.len() && b[j] == a[i];
    assert(b[j].btc_destination == destination);
}

/// What fits in a bundle still fits when the last destinations are left out.
pub proof fn lemma_fit_prefix(destinations: Seq<Seq<u8>>, n: int)
    requires
        0 <= n <= destinations.len(),
        fit_together(destinations),
    ensures
        fit_together(destinations.take(n)),
    decreases destinations.len(),
{
    if n == destinations.len() {
        assert(destinations.take(n) =~= destinations);
    } else {
        let rest = destinations.drop_last();
        assert(payouts_size(rest) <= payouts_size(destinations));
        assert(fit_together(rest));
        lemma_fit_prefix(rest, n);
        assert(rest.take(n) =~= destinations.take(n));
    }
}

/// Taking destinations one by one for as long as they fit finds the longest prefix that fits.
pub proof fn lemma_longest_fit(destinations: Seq<Seq<u8>>, n: int)
    requires
        0 <= n <= destinations.len(),
        fit_together(destinations.take(n)),
        n < destinations.len() ==> !fit_together(destinations.take(n + 1)),
    ensures
        longest_fit(destinations) == destinations.take(n),
    decreases destinations.len(),
{
    if n == destinations.len() {
        assert(destinations.take(n) =~= destinations);
    } else {
        if fit_together(destinations) {
            lemma_fit_prefix(destinations, n + 1);
        }
        let rest = destinations.drop_last();
        assert(rest.take(n) =~= destinations.take(n));
        if n < rest.len() {
            assert(rest.take(n + 1) =~= destinations.take(n + 1));
        }
        lemma_longest_fit(rest, n);
    }
}

/// A bundle stays within the standard weight, and taking in one more of the ranked destinations
/// would exceed it.
pub proof fn lemma_selection_is_maximal(requests: Seq<RequestView>)
    ensures
        fit_together(selected(requests)),
        ({
            let payable = ranking(requests).filter(|destination: Seq<u8>| is_payable(destination));
            let n = selected(requests).len() as int;
            &&& n <= payable.len()
            &&& selected(requests) == payable.take(n)
            &&& forall|m: int| n < m <= payable.len() ==> !fit_together(#[trigger] payable.take(m))
        }),
{
    let payable = ranking(requests).filter(|destination: Seq<u8>| is_payable(destination));
    lemma_longest_fit_props(payable);
}

proof fn lemma_longest_fit_props(destinations: Seq<Seq<u8>>)
    ensures
        fit_together(longest_fit(destinations)),
        longest_fit(destinations).len() <= destinations.len(),
        longest_fit(destinations) == destinations.take(longest_fit(destinations).len() as int),
        forall|m: int|
            longest_fit(destinations).len() < m <= destinations.len() ==> !fit_together(
                #[trigger] destinations.take(m),
            ),
    decreases destinations.len(),
{
    assert(destinations.take(destinations.len() as int) =~= destinations);
    if destinations.len() > 0 && !fit_together(destinations) {
        let rest = destinations.drop_last();
        lemma_longest_fit_props(rest);
        let n = longest_fit(rest).len() as int;
        assert(rest.take(n) =~= destinations.take(n));
        assert forall|m: int| n < m <= destinations.len() implies !fit_together(
            #[trigger] destinations.take(m),
        ) by {
            if m <= rest.len() {
                assert(rest.take(m) =~= destinations.take(m));
            }
        }
    }
}

/// Whether no two requests share an index.
pub open spec fn distinct_indices(requests: Seq<RequestView>) -> bool {
    forall|i: int, j: int|
        0 <= i < j < requests.len() ==> (#[trigger] requests[i]).index != (
        #[trigger] requests[j]).index
}

/// A bundle takes in every request for a destination that it pays.
pub proof fn lemma_paid_index(requests: Seq<RequestView>, destinations: Seq<Seq<u8>>, i: int)
    requires
        0 <= i < requests.len(),
        destinations.contains(requests[i].btc_destination),
    ensures
        paid_indices(requests, destinations).contains(requests[i].index),
    decreases requests.len(),
{
    let rest = requests.drop_last();
    let keep = |request: RequestView| destinations.contains(request.btc_destination);
    let key = |request: RequestView| request.index;
    assert(paid_indices(requests, destinations) == gather(requests, keep, key));
    assert(paid_indices(rest, destinations) == gather(rest, keep, key));
    if i < rest.len() {
        lemma_paid_index(rest, destinations, i);
    }
}

/// A bundle takes in no index that no request has.
pub proof fn lemma_paid_is_asked(
    requests: Seq<RequestView>,
    destinations: Seq<Seq<u8>>,
    index: u64,
)
    requires
        paid_indices(requests, destinations).contains(index),
    ensures
        exists|i: int|
            0 <= i < requests.len() && (#[trigger] requests[i]).index == index
                && destinations.contains(requests[i].btc_destination),
    decreases requests.len(),
{
    let keep = |request: RequestView| destinations.contains(request.btc_destination);
    let key = |request: RequestView| request.index;
    assert(paid_indices(requests, destinations) == gather(requests, keep, key));
    if requests.len() > 0 {
        let rest = requests.drop_last();
        assert(paid_indices(rest, destinations) == gather(rest, keep, key));
        if keep(requests.last()) && requests.last().index == index {
            assert(requests[requests.len() - 1].index == index);
        } else {
            lemma_paid_is_asked(rest, destinations, index);
            let i = choose|i: int|
                0 <= i < rest.len() && (#[trigger] rest[i]).index == index
                    && destinations.contains(rest[i].btc_destination);
            assert(requests[i].index == index);
        }
    }
}

/// Where no two requests share an index, a bundle takes in each request at most once.
pub proof fn lemma_paid_at_most_once(
    requests: Seq<RequestView>,
    destinations: Seq<Seq<u8>>,
    index: u64,
)
    requires
        distinct_indices(requests),
    ensures
        paid_indices(requests, destinations).count(index) <= 1,
        paid_indices(requests, destinations).count(index) == 1 <==> exists|i: int|
            0 <= i < requests.len() && (#[trigger] requests[i]).index == index
                && destinations.contains(requests[i].btc_destination),
    decreases requests.len(),
{
    if requests.len() > 0 {
        let rest = requests.drop_last();
        assert forall|i: int, j: int| 0 <= i < j < rest.len() implies (#[trigger] rest[i]).index
            != (#[trigger] rest[j]).index by {
            assert(requests[i].index != requests[j].index);
        }
        lemma_paid_at_most_once(rest, destinations, index);
        let last = requests.last();
        let keep = |request: RequestView| destinations.contains(request.btc_destination);
        let key = |request: RequestView| request.index;
        assert(paid_indices(requests, destinations) == gather(requests, keep, key));
        assert(paid_indices(rest, destinations) == gather(rest, keep, key));
        if paid_indices(rest, destinations).count(index) == 1 {
            let i = choose|i: int|
                0 <= i < rest.len() && (#[trigger] rest[i]).index == index
                    && destinations.contains(rest[i].btc_destination);
            assert(requests[i].index != requests[requests.len() - 1].index);
            assert(requests[i].index == index);
        }
        if exists|i: int|
            0 <= i < requests.len() && (#[trigger] requests[i]).index == index
                && destinations.contains(requests[i].btc_destination) {
            let i = choose|i: int|
                0 <= i < requests.len() && (#[trigger] requests[i]).index == index
                    && destinations.contains(requests[i].btc_destination);
            if i < rest.len() {
                assert(rest[i].index == index);
            }
        }
        if destinations.contains(last.btc_destination) && last.index == index {
            assert(requests[requests.len() - 1].index == index);
        }
    }
}

/// Where no two requests share an index, no index is named twice in a bundle.
pub proof fn lemma_bundle_indices_distinct(
    requests: Seq<RequestView>,
    destinations: Seq<Seq<u8>>,
    request_indices: Seq<u64>,
)
    requires
        distinct_indices(requests),
        request_indices.to_multiset() == paid_indices(requests, destinations),
    ensures
        request_indices.no_duplicates(),
{
    assert forall|index: u64| request_indices.to_multiset().contains(index) implies
        request_indices.to_multiset().count(index) == 1 by {
        lemma_paid_at_most_once(requests, destinations, index);
    }
    request_indices.lemma_multiset_has_no_duplicates_conv();
}

/// Leaving items out of a list keeps them distinct, and keeps every relation between earlier and
/// later ones.
proof fn lemma_filter_keeps_order(
    items: Seq<Seq<u8>>,
    keep: spec_fn(Seq<u8>) -> bool,
    relation: spec_fn(Seq<u8>, Seq<u8>) -> bool,
)
    requires
        items.no_duplicates(),
        forall|i: int, j: int|
            0 <= i < j < items.len() ==> relation(#[trigger] items[i], #[trigger] items[j]),
    ensures
        items.filter(keep).no_duplicates(),
        forall|item: Seq<u8>| #[trigger]
            items.filter(keep).contains(item) <==> items.contains(item) && keep(item),
        forall|i: int, j: int|
            0 <= i < j < items.filter(keep).len() ==> relation(
                #[trigger] items.filter(keep)[i],
                #[trigger] items.filter(keep)[j],
            ),
    decreases items.len(),
{
    reveal(Seq::filter);
    if items.len() > 0 {
        let rest = items.drop_last();
        let last = items.last();
        assert forall|i: int, j: int| 0 <= i < j < rest.len() implies relation(
            #[trigger] rest[i],
            #[trigger] rest[j],
        ) by {
            assert(relation(items[i], items[j]));
        }
        lemma_filter_keeps_order(rest, keep, relation);
        let (before, after) = (rest.filter(keep), items.filter(keep));
        assert(items =~= rest.push(last));
        assert forall|k: int| 0 <= k < before.len() implies #[trigger] before[k] != last
            && relation(before[k], last) by {
            assert(before.contains(before[k]));
            let i = choose|i: int| 0 <= i < rest.len() && rest[i] == before[k];
            assert(items[i] != items[items.len() - 1]);
            assert(relation(items[i], items[items.len() - 1]));
        }
        assert forall|item: Seq<u8>| #[trigger] after.contains(item) <==> items.contains(item)
            && keep(item) by {
            if items.contains(item) {
                let i = choose|i: int| 0 <= i < items.len() && items[i] == item;
                if i < rest.len() {
                    assert(rest[i] == item);
                    if keep(item) {
                        assert(before.contains(item));
                        let k = choose|k: int| 0 <= k < before.len() && before[k] == item;
                        assert(after[k] == item);
                    }
                } else if keep(item) {
                    assert(after[before.len() as int] == item);
                }
            }
            if after.contains(item) {
                let k = choose|k: int| 0 <= k < after.len() && after[k] == item;
                if k < before.len() {
                    assert(before.contains(before[k]));
                    let i = choose|i: int| 0 <= i < rest.len() && rest[i] == item;
                    assert(items[i] == item);
                } else {
                    assert(items[items.len() - 1] == item);
                }
            }
        }
    }
}

/// A bundle pays each destination once, and pays none that no request asks for.
pub proof fn lemma_selected_destinations(requests: Seq<RequestView>)
    ensures
        selected(requests).no_duplicates(),
        forall|destination: Seq<u8>| #[trigger]
            selected(requests).contains(destination) ==> has_destination(requests, destination)
                && is_payable(destination),
{
    lemma_ranking_exists(requests);
    lemma_selection_is_maximal(requests);
    let keep = |destination: Seq<u8>| is_payable(destination);
    let payable = ranking(requests).filter(keep);
    lemma_filter_keeps_order(ranking(requests), keep, |a: Seq<u8>, b: Seq<u8>| true);
    assert forall|destination: Seq<u8>| #[trigger] selected(requests).contains(
        destination,
    ) implies has_destination(requests, destination) && is_payable(destination) by {
        let k = choose|k: int|
            0 <= k < selected(requests).len() && selected(requests)[k] == destination;
        assert(payable[k] == destination);
        assert(payable.contains(destination));
        assert(ranking(requests).contains(destination));
    }
}

/// Nothing that a bundle leaves out ranks ahead of what it pays.
pub proof fn lemma_selected_outrank_the_rest(
    requests: Seq<RequestView>,
    paid: Seq<u8>,
    left_out: Seq<u8>,
)
    requires
        selected(requests).contains(paid),
        has_destination(requests, left_out),
        is_payable(left_out),
        !selected(requests).contains(left_out),
    ensures
        no_later(payout_to(requests, paid), payout_to(requests, left_out)),
{
    lemma_ranking_exists(requests);
    lemma_selection_is_maximal(requests);
    let order = ranking(requests);
    let keep = |destination: Seq<u8>| is_payable(destination);
    let relation = |a: Seq<u8>, b: Seq<u8>|
        no_later(payout_to(requests, a), payout_to(requests, b));
    lemma_filter_keeps_order(order, keep, relation);
    let payable = order.filter(keep);
    let n = selected(requests).len() as int;
    let i = choose|i: int| 0 <= i < n && selected(requests)[i] == paid;
    assert(payable[i] == paid);
    assert(order.contains(left_out));
    assert(payable.contains(left_out));
    let j = choose|j: int| 0 <= j < payable.len() && payable[j] == left_out;
    if j < n {
        assert(selected(requests)[j] == left_out);
    }
    assert(relation(payable[i], payable[j]));
}

/// Summing up by destination loses nothing: the totals of distinct destinations add up to that of
/// all requests for them.
pub proof fn lemma_totals_add_up(
    requests: Seq<RequestView>,
    destinations: Seq<Seq<u8>>,
    amount: spec_fn(RequestView) -> nat,
)
    requires
        destinations.no_duplicates(),
    ensures
        sum_over(
            destinations,
            |destination: Seq<u8>| total_for(requests, destination, amount),
        ) == total_among(requests, destinations, amount),
    decreases destinations.len(),
{
    let each = |destination: Seq<u8>| total_for(requests, destination, amount);
    let all = |request: RequestView|
        if destinations.contains(request.btc_destination) {
            amount(request)
        } else {
            0
        };
    if destinations.len() == 0 {
        lemma_sum_zero(requests, all);
    } else {
        let rest = destinations.drop_last();
        let last = destinations.last();
        lemma_totals_add_up(requests, rest, amount);
        let most = |request: RequestView|
            if rest.contains(request.btc_destination) {
                amount(request)
            } else {
                0
            };
        let one = |request: RequestView|
            if request.btc_destination == last {
                amount(request)
            } else {
                0
            };
        assert forall|request: RequestView| #[trigger] all(request) == most(request) + one(
            request,
        ) by {
            let destination = request.btc_destination;
            if rest.contains(destination) {
                let k = choose|k: int| 0 <= k < rest.len() && rest[k] == destination;
                assert(destinations[k] == destination);
                assert(destinations[k] != destinations[destinations.len() - 1]);
            }
            if destinations.contains(destination) && destination != last {
                let k = choose|k: int|
                    0 <= k < destinations.len() && destinations[k] == destination;
                assert(rest[k] == destination);
            }
            if destination == last {
                assert(destinations[destinations.len() - 1] == destination);
            }
        }
        lemma_sum_adds(requests, all, most, one);
        assert(sum_over(destinations, each) == sum_over(rest, each) + each(last));
    }
}

proof fn lemma_sum_zero(requests: Seq<RequestView>, weight: spec_fn(RequestView) -> nat)
    requires
        forall|request: RequestView| #[trigger] weight(request) == 0,
    ensures
        sum_over(requests, weight) == 0,
    decreases requests.len(),
{
    if requests.len() > 0 {
        lemma_sum_zero(requests.drop_last(), weight);
    }
}

proof fn lemma_sum_adds(
    requests: Seq<RequestView>,
    total: spec_fn(RequestView) -> nat,
    a: spec_fn(RequestView) -> nat,
    b: spec_fn(RequestView) -> nat,
)
    requires
        forall|request: RequestView| #[trigger] total(request) == a(request) + b(request),
    ensures
        sum_over(requests, total) == sum_over(requests, a) + sum_over(requests, b),
    decreases requests.len(),
{
    if requests.len() > 0 {
        lemma_sum_adds(requests.drop_last(), total, a, b);
        assert(total(requests.last()) == a(requests.last()) + b(requests.last()));
    }
}

proof fn lemma_outputs_value(requests: Seq<RequestView>, destinations: Seq<Seq<u8>>)
    requires
        sum_over(
            destinations,
            |destination: Seq<u8>| total_value(requests, destination),
        ) <= u64::MAX,
    ensures
        sum_over(
            payout_outputs(requests, destinations),
            |output: TxOutView| output.value_sats as nat,
        ) == sum_over(
            destinations,
            |destination: Seq<u8>| total_value(requests, destination),
        ),
    decreases destinations.len(),
{
    if destinations.len() > 0 {
        let rest = destinations.drop_last();
        lemma_outputs_value(requests, rest);
        assert(payout_outputs(requests, destinations).drop_last() =~= payout_outputs(
            requests,
            rest,
        ));
    }
}

/// A bundle pays out exactly what the requests that it takes in ask for, and offers exactly the fee
/// that they offer, as long as these totals are not larger than a `u64` can hold.
pub proof fn lemma_bundle_conserves_value(requests: Seq<RequestView>)
    ensures
        ({
            let asked = total_among(
                requests,
                selected(requests),
                |request: RequestView| request.value_sats as nat,
            );
            asked <= u64::MAX ==> sum_over(
                payout_outputs(requests, selected(requests)),
                |output: TxOutView| output.value_sats as nat,
            ) == asked
        }),
        offered_fee(requests, selected(requests)) == saturate_u64(
            total_among(
                requests,
                selected(requests),
                |request: RequestView| request.main_fee_sats as nat,
            ),
        ),
{
    lemma_selected_destinations(requests);
    let value = |request: RequestView| request.value_sats as nat;
    let fee = |request: RequestView| request.main_fee_sats as nat;
    lemma_totals_add_up(requests, selected(requests), value);
    lemma_totals_add_up(requests, selected(requests), fee);
    assert((|destination: Seq<u8>| total_value(requests, destination)) =~= (|
        destination: Seq<u8>,
    | total_for(requests, destination, value)));
    assert((|destination: Seq<u8>| total_fee(requests, destination)) =~= (|destination: Seq<u8>|
        total_for(requests, destination, fee)));
    if total_among(requests, selected(requests), value) <= u64::MAX {
        lemma_outputs_value(requests, selected(requests));
    }
}

/// What is asked for a destination, or for any of several, grows with each request for it by just
/// what that request asks for, and with no other.
pub proof fn lemma_totals_grow(
    requests: Seq<RequestView>,
    request: RequestView,
    destination: Seq<u8>,
    destinations: Seq<Seq<u8>>,
    amount: spec_fn(RequestView) -> nat,
)
    ensures
        total_value(Seq::empty(), destination) == 0,
        total_fee(Seq::empty(), destination) == 0,
        total_among(Seq::empty(), destinations, amount) == 0,
        request.btc_destination == destination ==> {
            &&& total_value(requests.push(request), destination) == total_value(
                requests,
                destination,
            ) + request.value_sats
            &&& total_fee(requests.push(request), destination) == total_fee(requests, destination)
                + request.main_fee_sats
        },
        request.btc_destination != destination ==> {
            &&& total_value(requests.push(request), destination) == total_value(
                requests,
                destination,
            )
            &&& total_fee(requests.push(request), destination) == total_fee(requests, destination)
        },
        destinations.contains(request.btc_destination) ==> total_among(
            requests.push(request),
            destinations,
            amount,
        ) == total_among(requests, destinations, amount) + amount(request),
        !destinations.contains(request.btc_destination) ==> total_among(
            requests.push(request),
            destinations,
            amount,
        ) == total_among(requests, destinations, amount),
{
    assert(requests.push(request).drop_last() =~= requests);
}

/// The indices that a bundle takes in are those of the requests for what it pays, each once for
/// each such request.
pub proof fn lemma_paid_indices_grow(
    requests: Seq<RequestView>,
    request: RequestView,
    destinations: Seq<Seq<u8>>,
)
    ensures
        paid_indices(Seq::empty(), destinations) == Multiset::<u64>::empty(),
        destinations.contains(request.btc_destination) ==> paid_indices(
            requests.push(request),
            destinations,
        ) == paid_indices(requests, destinations).insert(request.index),
        !destinations.contains(request.btc_destination) ==> paid_indices(
            requests.push(request),
            destinations,
        ) == paid_indices(requests, destinations),
{
    assert(requests.push(request).drop_last() =~= requests);
    let keep = |request: RequestView| destinations.contains(request.btc_destination);
    let key = |request: RequestView| request.index;
    assert(paid_indices(requests, destinations) == gather(requests, keep, key));
    assert(paid_indices(requests.push(request), destinations) == gather(
        requests.push(request),
        keep,
        key,
    ));
}

/// `n`, or the largest number of 64 bits if `n` is larger.
pub open spec fn capped(n: nat) -> nat {
    if n > 0xFFFF_FFFF_FFFF_FFFF {
        0xFFFF_FFFF_FFFF_FFFF
    } else {
        n
    }
}

/// Each payout goes to the script of its own destination, and is all that is asked for it, up to
/// the largest `u64`.
pub proof fn lemma_payouts_in_full(requests: Seq<RequestView>, destinations: Seq<Seq<u8>>, i: int)
    requires
        0 <= i < destinations.len(),
    ensures
        payout_outputs(requests, destinations).len() == destinations.len(),
        payout_outputs(requests, destinations)[i].script_pubkey == destinations[i],
        payout_outputs(requests, destinations)[i].value_sats == capped(
            total_value(requests, destinations[i]),
        ),
{
}

/// Whether a bundle considers destination `a` no later than `b`: for the higher fee in all, then
/// for the higher value in all, then for the script that is lexicographically greater.
pub open spec fn outranks(requests: Seq<RequestView>, a: Seq<u8>, b: Seq<u8>) -> bool {
    let (fee_a, fee_b) = (capped(total_fee(requests, a)), capped(total_fee(requests, b)));
    let (value_a, value_b) = (capped(total_value(requests, a)), capped(total_value(requests, b)));
    ||| fee_a > fee_b
    ||| fee_a == fee_b && value_a > value_b
    ||| fee_a == fee_b && value_a == value_b && lex_le(b, a)
}

/// Bytes of an output to a script of `script_len` bytes: eight for the amount, the script itself,
/// and one, three, five or nine for its length.
pub open spec fn output_bytes(script_len: nat) -> nat {
    8 + script_len + if script_len < 0xFD {
        1
    } else if script_len < 0x1_0000 {
        3nat
    } else if script_len < 0x1_0000_0000 {
        5
    } else {
        9
    }
}

/// Bytes of the outputs to `destinations`, one for each.
pub open spec fn all_output_bytes(destinations: Seq<Seq<u8>>) -> nat
    decreases destinations.len(),
{
    if destinations.len() == 0 {
        0
    } else {
        all_output_bytes(destinations.drop_last()) + output_bytes(destinations.last().len())
    }
}

/// Weight of a bundle that pays `destinations`: four for each byte. There are 112 bytes beside the
/// payouts and the number of outputs, which takes one, three, five or nine.
pub open spec fn weight_of_paying(destinations: Seq<Seq<u8>>) -> nat {
    let outputs = destinations.len() + 2;
    4 * (112 + all_output_bytes(destinations) + if outputs < 0xFD {
        1
    } else if outputs < 0x1_0000 {
        3nat
    } else if outputs < 0x1_0000_0000 {
        5
    } else {
        9
    })
}

proof fn lemma_all_output_bytes(destinations: Seq<Seq<u8>>)
    ensures
        payouts_size(destinations) == all_output_bytes(destinations),
        all_output_bytes(destinations) >= 9 * destinations.len(),
    decreases destinations.len(),
{
    if destinations.len() > 0 {
        lemma_all_output_bytes(destinations.drop_last());
    }
}

/// Destinations fit in one bundle if and only if it weighs at most 400000.
pub proof fn lemma_fit_in_numbers(destinations: Seq<Seq<u8>>)
    ensures
        fit_together(destinations) <==> weight_of_paying(destinations) <= 400_000,
{
    lemma_all_output_bytes(destinations);
}

/// Every script that has at most 10000 bytes can be paid, and so can every other of which the
/// output takes fewer than `2^32` bytes.
pub proof fn lemma_payable_in_numbers(destination: Seq<u8>)
    ensures
        destination.len() <= 10_000 ==> is_payable(destination),
        is_payable(destination) <==> destination.len() <= 4_294_967_282,
{
}

proof fn lemma_outranks(requests: Seq<RequestView>, a: Seq<u8>, b: Seq<u8>)
    ensures
        no_later(payout_to(requests, a), payout_to(requests, b)) <==> outranks(requests, a, b),
{
}

/// What a bundle pays weighs at most 400000, is asked for, can be paid, is paid once each, and
/// stands in the order of fee, value and script.
pub proof fn lemma_selected_in_order(requests: Seq<RequestView>)
    ensures
        weight_of_paying(selected(requests)) <= 400_000,
        selected(requests).no_duplicates(),
        forall|i: int|
            0 <= i < selected(requests).len() ==> {
                &&& (#[trigger] selected(requests)[i]).len() <= 4_294_967_282
                &&& exists|k: int|
                    0 <= k < requests.len() && (#[trigger] requests[k]).btc_destination == selected(
                        requests,
                    )[i]
            },
        forall|i: int, j: int|
            0 <= i < j < selected(requests).len() ==> outranks(
                requests,
                #[trigger] selected(requests)[i],
                #[trigger] selected(requests)[j],
            ),
{
    lemma_ranking_exists(requests);
    lemma_selection_is_maximal(requests);
    lemma_selected_destinations(requests);
    lemma_fit_in_numbers(selected(requests));
    let order = ranking(requests);
    let keep = |destination: Seq<u8>| is_payable(destination);
    let relation = |a: Seq<u8>, b: Seq<u8>|
        no_later(payout_to(requests, a), payout_to(requests, b));
    lemma_filter_keeps_order(order, keep, relation);
    let payable = order.filter(keep);
    assert forall|i: int| 0 <= i < selected(requests).len() implies {
        &&& (#[trigger] selected(requests)[i]).len() <= 4_294_967_282
        &&& exists|k: int|
            0 <= k < requests.len() && (#[trigger] requests[k]).btc_destination == selected(
                requests,
            )[i]
    } by {
        assert(selected(requests).contains(selected(requests)[i]));
        lemma_payable_in_numbers(selected(requests)[i]);
    }
    assert forall|i: int, j: int| 0 <= i < j < selected(requests).len() implies outranks(
        requests,
        #[trigger] selected(requests)[i],
        #[trigger] selected(requests)[j],
    ) by {
        assert(payable[i] == selected(requests)[i]);
        assert(payable[j] == selected(requests)[j]);
        assert(relation(payable[i], payable[j]));
        lemma_outranks(requests, payable[i], payable[j]);
    }
}

/// A destination is left out only because the bundle is full: there is then a first one among those
/// left out (which may be itself) with which the bundle would weigh more than 400000, and all that
/// is paid ranks before it.
pub proof fn lemma_left_out_only_when_full(requests: Seq<RequestView>, i: int)
    requires
        0 <= i < requests.len(),
        requests[i].btc_destination.len() <= 4_294_967_282,
        !selected(requests).contains(requests[i].btc_destination),
    ensures
        exists|k: int|
            {
                &&& 0 <= k < requests.len()
                &&& !selected(requests).contains((#[trigger] requests[k]).btc_destination)
                &&& weight_of_paying(selected(requests).push(requests[k].btc_destination)) > 400_000
                &&& outranks(
                    requests,
                    requests[k].btc_destination,
                    requests[i].btc_destination,
                )
                &&& forall|j: int|
                    0 <= j < selected(requests).len() ==> outranks(
                        requests,
                        #[trigger] selected(requests)[j],
                        requests[k].btc_destination,
                    )
            },
{
    lemma_ranking_exists(requests);
    lemma_selection_is_maximal(requests);
    let order = ranking(requests);
    let keep = |destination: Seq<u8>| is_payable(destination);
    let relation = |a: Seq<u8>, b: Seq<u8>|
        no_later(payout_to(requests, a), payout_to(requests, b));
    lemma_filter_keeps_order(order, keep, relation);
    let payable = order.filter(keep);
    let paid = selected(requests);
    let n = paid.len() as int;
    let left_out = requests[i].btc_destination;
    lemma_payable_in_numbers(left_out);
    assert(has_destination(requests, left_out));
    assert(order.contains(left_out));
    assert(payable.contains(left_out));
    let m = choose|m: int| 0 <= m < payable.len() && payable[m] == left_out;
    if m < n {
        assert(paid[m] == left_out);
    }
    let next = payable[n];
    assert(payable.contains(next));
    assert(order.contains(next));
    assert(has_destination(requests, next));
    let k = choose|k: int|
        0 <= k < requests.len() && (#[trigger] requests[k]).btc_destination == next;
    assert(payable.take(n + 1) =~= paid.push(next));
    assert(!fit_together(payable.take(n + 1)));
    lemma_fit_in_numbers(paid.push(next));
    if paid.contains(next) {
        let j = choose|j: int| 0 <= j < n && paid[j] == next;
        assert(payable[j] == payable[n]);
    }
    if n < m {
        assert(relation(payable[n], payable[m]));
    } else {
        lemma_no_later_total(payout_to(requests, next), payout_to(requests, next));
    }
    lemma_outranks(requests, next, left_out);
    assert forall|j: int| 0 <= j < n implies outranks(
        requests,
        #[trigger] paid[j],
        next,
    ) by {
        assert(payable[j] == paid[j]);
        assert(relation(payable[j], payable[n]));
        lemma_outranks(requests, paid[j], next);
    }
    assert(requests[k].btc_destination == next);
}

/// Where all destinations, of scripts of at most 10000 bytes, fit in the standard weight together,
/// every one of them is paid and every request is taken in. `destinations` may list each once.
pub proof fn lemma_all_that_fits_is_paid(
    requests: Seq<RequestView>,
    destinations: Seq<Seq<u8>>,
    i: int,
)
    requires
        0 <= i < requests.len(),
        forall|k: int|
            0 <= k < requests.len() ==> destinations.contains(
                (#[trigger] requests[k]).btc_destination,
            ),
        forall|k: int| 0 <= k < destinations.len() ==> (#[trigger] destinations[k]).len() <= 10_000,
        weight_of_paying(destinations) <= 400_000,
    ensures
        selected(requests).contains(requests[i].btc_destination),
        paid_indices(requests, selected(requests)).contains(requests[i].index),
{
    let wanted = requests[i].btc_destination;
    if !selected(requests).contains(wanted) {
        assert(destinations.contains(wanted));
        lemma_left_out_only_when_full(requests, i);
        let k = choose|k: int|
            {
                &&& 0 <= k < requests.len()
                &&& !selected(requests).contains((#[trigger] requests[k]).btc_destination)
                &&& weight_of_paying(selected(requests).push(requests[k].btc_destination)) > 400_000
                &&& outranks(requests, requests[k].btc_destination, wanted)
                &&& forall|j: int|
                    0 <= j < selected(requests).len() ==> outranks(
                        requests,
                        #[trigger] selected(requests)[j],
                        requests[k].btc_destination,
                    )
            };
        let full = selected(requests).push(requests[k].btc_destination);
        lemma_selected_destinations(requests);
        assert(full.no_duplicates());
        assert forall|j: int| 0 <= j < full.len() implies destinations.contains(
            #[trigger] full[j],
        ) by {
            if j < selected(requests).len() {
                assert(selected(requests).contains(full[j]));
                let l = choose|l: int|
                    0 <= l < requests.len() && (#[trigger] requests[l]).btc_destination == full[j];
                assert(destinations.contains(requests[l].btc_destination));
            } else {
                assert(destinations.contains(requests[k].btc_destination));
            }
        }
        lemma_fewer_weigh_less(full, destinations);
    }
    lemma_paid_index(requests, selected(requests), i);
}

/// Distinct destinations weigh no more than any list that holds them all.
proof fn lemma_fewer_weigh_less(fewer: Seq<Seq<u8>>, destinations: Seq<Seq<u8>>)
    requires
        fewer.no_duplicates(),
        forall|j: int| 0 <= j < fewer.len() ==> destinations.contains(#[trigger] fewer[j]),
    ensures
        fewer.len() <= destinations.len(),
        all_output_bytes(fewer) <= all_output_bytes(destinations),
        weight_of_paying(fewer) <= weight_of_paying(destinations),
    decreases fewer.len(),
{
    if fewer.len() > 0 {
        let rest = fewer.drop_last();
        let last = fewer.last();
        assert(destinations.contains(fewer[fewer.len() - 1]));
        let at = choose|at: int| 0 <= at < destinations.len() && destinations[at] == last;
        let others = destinations.remove(at);
        assert forall|j: int| 0 <= j < rest.len() implies others.contains(#[trigger] rest[j]) by {
            assert(destinations.contains(fewer[j]));
            let l = choose|l: int| 0 <= l < destinations.len() && destinations[l] == fewer[j];
            assert(fewer[j] != fewer[fewer.len() - 1]);
            if l < at {
                assert(others[l] == rest[j]);
            } else {
                assert(others[l - 1] == rest[j]);
            }
        }
        lemma_fewer_weigh_less(rest, others);
        lemma_output_bytes_remove(destinations, at);
    }
}

proof fn lemma_output_bytes_remove(destinations: Seq<Seq<u8>>, i: int)
    requires
        0 <= i < destinations.len(),
    ensures
        all_output_bytes(destinations) == all_output_bytes(destinations.remove(i)) + output_bytes(
            destinations[i].len(),
        ),
    decreases destinations.len(),
{
    if i == destinations.len() - 1 {
        assert(destinations.remove(i) =~= destinations.drop_last());
    } else {
        lemma_output_bytes_remove(destinations.drop_last(), i);
        assert(destinations.remove(i).drop_last() =~= destinations.drop_last().remove(i));
    }
}

} // verus!
