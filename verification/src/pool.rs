//! The [`Pool`] abstraction: anything that can quote a swap.
//!
//! Every concrete AMM implements [`Pool`]. Routing and sizing only ever see this trait, so a
//! new protocol never touches them.
use crate::types::{checksum_text, Address, U256};
use vstd::prelude::*;
use vstd::string::StringExecFns;

verus! {

/// Which AMM family a pool belongs to. Concrete forks map onto one of these math families.
#[derive(Clone, Copy, Debug, PartialEq, Eq, Hash, Structural)]
pub enum Protocol {
    /// Constant product `x*y=k` (Uniswap V2, Pancake V2, SunSwap, Solidly volatile).
    UniswapV2,
    /// Concentrated liquidity (Uniswap V3, Pancake V3, Aerodrome Slipstream).
    UniswapV3,
    /// Solidly stable curve `x^3*y + x*y^3 = k` (Aerodrome and Velodrome stable).
    SolidlyStable,
    /// Curve StableSwap invariant.
    CurveStable,
    /// Balancer weighted pool.
    BalancerWeighted,
}

/// Why a swap could not be quoted.
#[derive(Clone, Copy, Debug, PartialEq, Eq)]
pub enum SimError {
    /// The token is not part of the pool.
    UnknownToken(Address),
    /// The input and the output token are the same.
    SameToken,
    /// The amount in is zero.
    ZeroAmount,
    /// The pool cannot fill the swap.
    InsufficientLiquidity,
    /// The pool math left its integer range.
    Overflow,
    /// The pool's parameters are unusable.
    BadConfig(&'static str),
    /// The cached tick window does not cover the swap: widen the window and refetch.
    IncompleteState,
}

impl SimError {
    /// What the error says.
    pub open spec fn text(self) -> Seq<char> {
        match self {
            SimError::UnknownToken(token) => "token "@ + checksum_text(token.value())
                + " is not part of this pool"@,
            SimError::SameToken => "token_in and token_out are the same"@,
            SimError::ZeroAmount => "amount in is zero"@,
            SimError::InsufficientLiquidity => "insufficient liquidity for the requested swap"@,
            SimError::Overflow => "arithmetic overflow in pool math"@,
            SimError::BadConfig(what) => "pool misconfigured: "@ + what@,
            SimError::IncompleteState => "incomplete state: swap exceeds the cached tick window"@,
        }
    }

    /// What the error says.
    pub fn message(&self) -> (r: String)
        ensures
            r@ == self.text(),
    {
        match self {
            SimError::UnknownToken(token) => "token ".to_owned().concat(
                token.checksum().as_str(),
            ).concat(" is not part of this pool"),
            SimError::SameToken => "token_in and token_out are the same".to_owned(),
            SimError::ZeroAmount => "amount in is zero".to_owned(),
            SimError::InsufficientLiquidity => {
                "insufficient liquidity for the requested swap".to_owned()
            },
            SimError::Overflow => "arithmetic overflow in pool math".to_owned(),
            SimError::BadConfig(what) => "pool misconfigured: ".to_owned().concat(what),
            SimError::IncompleteState => {
                "incomplete state: swap exceeds the cached tick window".to_owned()
            },
        }
    }
}

/// A quote with its amount as a mathematical integer.
pub open spec fn quote_view(r: Result<U256, SimError>) -> Result<int, SimError> {
    match r {
        Ok(v) => Ok(v@),
        Err(e) => Err(e),
    }
}

/// A simulatable liquidity pool.
///
/// Quotes are pure functions of the pool's cached state. State is refreshed from the chain
/// before simulation.
pub trait Pool {
    /// The cached state is one that the pool's constructor and updates produce.
    spec fn wf(&self) -> bool;

    /// The pool contract's address.
    spec fn spec_address(&self) -> Address;

    /// The AMM family.
    spec fn spec_protocol(&self) -> Protocol;

    /// The tokens that the pool trades.
    spec fn spec_tokens(&self) -> Seq<Address>;

    /// What a swap of `amount_in` returns, net of the pool's fee.
    spec fn spec_quote(
        &self,
        token_in: Address,
        token_out: Address,
        amount_in: int,
    ) -> Result<int, SimError>;

    /// Gas units that one swap through the pool takes, roughly.
    spec fn spec_gas(&self) -> int;

    /// On-chain address: the pool's identity for deduplication and routing.
    fn address(&self) -> (r: Address)
        ensures
            r == self.spec_address(),
    ;

    /// The AMM family.
    fn protocol(&self) -> (r: Protocol)
        ensures
            r == self.spec_protocol(),
    ;

    /// Tokens tradeable in this pool.
    fn tokens(&self) -> (r: &[Address])
        ensures
            r@ == self.spec_tokens(),
    ;

    /// Simulate swapping exactly `amount_in` of `token_in` for `token_out`, returning the
    /// output amount net of the pool's swap fee.
    fn quote(&self, token_in: Address, token_out: Address, amount_in: U256) -> (r: Result<
        U256,
        SimError,
    >)
        requires
            self.wf(),
        ensures
            quote_view(r) == self.spec_quote(token_in, token_out, amount_in@),
    ;

    /// Rough gas cost, in gas units, of executing one swap through this pool.
    fn gas_estimate(&self) -> (r: u64)
        ensures
            r == self.spec_gas(),
    ;

    /// Whether this pool trades `token`.
    fn has_token(&self, token: Address) -> (r: bool)
        ensures
            r == self.spec_tokens().contains(token),
    {
        let tokens = self.tokens();
        let mut i: usize = 0;
        while i < tokens.len()
            invariant
                i <= tokens@.len(),
                tokens@ == self.spec_tokens(),
                forall|j: int| 0 <= j < i ==> tokens@[j] != token,
            decreases tokens@.len() - i,
        {
            if tokens[i] == token {
                assert(tokens@[i as int] == token);
                return true;
            }
            i += 1;
        }
        false
    }
}

/// `i` is the first place of `token`.
pub open spec fn is_first_place(tokens: Seq<Address>, token: Address, i: int) -> bool {
    &&& 0 <= i < tokens.len()
    &&& tokens[i] == token
    &&& forall|j: int| 0 <= j < i ==> tokens[j] != token
}

/// Where `token` first stands, if it does.
pub open spec fn token_place(tokens: Seq<Address>, token: Address) -> Option<int> {
    if exists|i: int| is_first_place(tokens, token, i) {
        Some(choose|i: int| is_first_place(tokens, token, i))
    } else {
        None
    }
}

/// Where `token` first stands in `tokens`.
pub fn index_of_token(tokens: &Vec<Address>, token: Address) -> (r: Option<usize>)
    ensures
        match r {
            Some(i) => token_place(tokens@, token) == Some(i as int) && i < tokens@.len(),
            None => token_place(tokens@, token) is None,
        },
        r is Some <==> tokens@.contains(token),
{
    let mut i: usize = 0;
    while i < tokens.len()
        invariant
            i <= tokens@.len(),
            forall|j: int| 0 <= j < i ==> tokens@[j] != token,
        decreases tokens@.len() - i,
    {
        if tokens[i] == token {
            proof {
                assert(is_first_place(tokens@, token, i as int));
                let k = choose|k: int| is_first_place(tokens@, token, k);
                assert(is_first_place(tokens@, token, k));
            }
            return Some(i);
        }
        i += 1;
    }
    None
}

} // verus!
