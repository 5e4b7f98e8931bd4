//! Which chain a `--chain` argument stands for. It defaults to beth's own genesis, so that the
//! node runs as this BIP300/301 sidechain out of the box.

use vstd::prelude::*;

verus! {

/// The chains that are known by name. The first is the default.
pub const SUPPORTED_CHAINS: [&'static str; 1] = ["beth"];

/// Chain spec parser defaulting to beth's own genesis (`"beth"`), while still accepting anything
/// that stands for a chain elsewhere (a builtin Ethereum chain name, or a path/raw JSON genesis).
#[derive(Debug, Clone, Default)]
#[non_exhaustive]
pub struct BethChainSpecParser;

impl BethChainSpecParser {
    /// The chain that `s` stands for: `beth_genesis` parses beth's own genesis, and `chain_value`
    /// parses every other value.
    pub fn parse<C, E, G, V>(s: &str, beth_genesis: G, chain_value: V) -> (chain: Result<C, E>)
     where
        G: FnOnce() -> Result<C, E>,
        V: FnOnce(&str) -> Result<C, E>,

        requires
            s@ == "beth"@ ==> call_requires(beth_genesis, ()),
            s@ != "beth"@ ==> call_requires(chain_value, (s,)),
        ensures
            s@ == "beth"@ ==> call_ensures(beth_genesis, (), chain),
            s@ != "beth"@ ==> call_ensures(chain_value, (s,), chain),
    {
        if s.to_owned() == "beth".to_owned() {
            beth_genesis()
        } else {
            chain_value(s)
        }
    }
}

} // verus!
