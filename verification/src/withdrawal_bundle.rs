//! Withdrawals (this sidechain -> Bitcoin mainchain).
//!
//! Users queue requests in the `WithdrawalRequestQueue` contract. Whoever builds a block reads the
//! queue ([`queue`]), selects requests into a bundle ([`selection`]), and has the corresponding
//! BIP300 "M6" Bitcoin transaction ([`m6`]) broadcast.
//!
//! The selection is deterministic: requests are put together by destination, destinations are
//! ranked ([`ranking`]), and the best of them are taken in for as long as the transaction stays
//! within Bitcoin's standard weight ([`weight`]). [`layout`] shows that reading the queue gives
//! back what Solidity stored.
//!
//! A destination is a raw scriptPubKey, which avoids an address-format/network round-trip. The
//! transaction commits to the indices of the requests that it pays.
//!
//! [`in_flight`] tracks bundles that have been broadcast, so that a block producer does not select
//! requests again that are already spoken for. The queue itself does not say which those are.

pub mod in_flight;
pub mod layout;
pub mod m6;
pub mod queue;
pub mod ranking;
pub mod selection;
pub mod weight;
