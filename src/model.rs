//! Pool snapshots and the opportunity records produced by a scan.
use vstd::prelude::*;
use vstd::string::StringExecFns;
use crate::swap::FEE_SCALE;

verus! {

/// One direction of a liquidity pool on one exchange.
#[derive(Clone, Debug, PartialEq, Eq)]
pub struct PoolState {
    pub dex: String,
    pub token_a: String,
    pub token_b: String,
    pub reserve_a: u64,
    pub reserve_b: u64,
    /// Millionths of the input kept by the pool.
    pub fee: u32,
}

/// The identity of a pool: its exchange, token A and token B.
pub type PoolKey = (String, String, String);

/// The view of a pool key.
pub open spec fn key_view(k: PoolKey) -> (Seq<char>, Seq<char>, Seq<char>) {
    (k.0@, k.1@, k.2@)
}

/// Exchange, token A and token B joined by `_`, the form under which the
/// slippage estimate looks pools up.
pub open spec fn joined_key(dex: Seq<char>, token_a: Seq<char>, token_b: Seq<char>) -> Seq<char> {
    dex + "_"@ + token_a + "_"@ + token_b
}

/// The key built from two identifiers alone, joined by `_`.
pub open spec fn pair_key(first: Seq<char>, second: Seq<char>) -> Seq<char> {
    first + "_"@ + second
}

impl PoolState {
    /// The identity of this pool in the registry.
    pub open spec fn key(&self) -> (Seq<char>, Seq<char>, Seq<char>) {
        (self.dex@, self.token_a@, self.token_b@)
    }

    /// The joined form of this pool's identity.
    pub open spec fn joined(&self) -> Seq<char> {
        joined_key(self.dex@, self.token_a@, self.token_b@)
    }

    /// The fee is a fraction in `[0, 1)`.
    pub open spec fn valid(&self) -> bool {
        self.fee < FEE_SCALE
    }

    /// A copy of this pool state, field by field.
    pub fn duplicate(&self) -> (r: PoolState)
        ensures
            r == *self,
    {
        PoolState {
            dex: self.dex.clone(),
            token_a: self.token_a.clone(),
            token_b: self.token_b.clone(),
            reserve_a: self.reserve_a,
            reserve_b: self.reserve_b,
            fee: self.fee,
        }
    }

    /// The registry key of this pool.
    pub fn registry_key(&self) -> (r: PoolKey)
        ensures
            key_view(r) == self.key(),
    {
        (self.dex.clone(), self.token_a.clone(), self.token_b.clone())
    }

    /// The joined form of this pool's identity.
    pub fn joined_key_string(&self) -> (r: String)
        ensures
            r@ == self.joined(),
    {
        make_joined_key(&self.dex, &self.token_a, &self.token_b)
    }
}

/// Exchange, token A and token B joined by `_`.
pub fn make_joined_key(dex: &String, token_a: &String, token_b: &String) -> (r: String)
    ensures
        r@ == joined_key(dex@, token_a@, token_b@),
{
    let mut k = dex.clone();
    k.append("_");
    k.append(token_a.as_str());
    k.append("_");
    k.append(token_b.as_str());
    k
}

/// The key that joins two identifiers, as the slippage estimate looks pools up.
pub fn make_pair_key(first: &String, second: &String) -> (r: String)
    ensures
        r@ == pair_key(first@, second@),
{
    let mut k = first.clone();
    k.append("_");
    k.append(second.as_str());
    k
}

/// A profitable cyclic route found by a scan.
#[derive(Clone, Debug, PartialEq, Eq)]
pub struct ArbitrageOpportunity {
    pub route_id: String,
    /// The tokens of the cycle; the first and the last are the same.
    pub tokens: Vec<String>,
    /// One exchange per hop.
    pub dexes: Vec<String>,
    pub input_amount: u64,
    pub expected_output: u64,
    pub gas_estimate: u64,
    /// `expected_output - input_amount`, in units of the input token.
    pub profit: i128,
    /// Confidence in basis points (ten-thousandths).
    pub confidence_bps: u32,
    /// Seconds since the Unix epoch.
    pub timestamp: u64,
}

/// The mathematical content of an opportunity.
pub struct OpportunityView {
    pub route_id: Seq<char>,
    pub tokens: Seq<Seq<char>>,
    pub dexes: Seq<Seq<char>>,
    pub input_amount: int,
    pub expected_output: int,
    pub gas_estimate: int,
    pub profit: int,
    pub confidence_bps: int,
    pub timestamp: int,
}

/// The views of a sequence of strings.
pub open spec fn strings_view(s: Seq<String>) -> Seq<Seq<char>> {
    s.map_values(|x: String| x@)
}

impl View for ArbitrageOpportunity {
    type V = OpportunityView;

    open spec fn view(&self) -> OpportunityView {
        OpportunityView {
            route_id: self.route_id@,
            tokens: strings_view(self.tokens@),
            dexes: strings_view(self.dexes@),
            input_amount: self.input_amount as int,
            expected_output: self.expected_output as int,
            gas_estimate: self.gas_estimate as int,
            profit: self.profit as int,
            confidence_bps: self.confidence_bps as int,
            timestamp: self.timestamp as int,
        }
    }
}

/// The views of a sequence of opportunities.
pub open spec fn opportunities_view(s: Seq<ArbitrageOpportunity>) -> Seq<OpportunityView> {
    s.map_values(|o: ArbitrageOpportunity| o@)
}

} // verus!
