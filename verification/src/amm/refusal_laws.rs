//! Laws of refusal: which quotes are refused before anything is computed, and as what.
use crate::amm::aerodrome::AerodromeVolatilePool;
use crate::amm::balancer::BalancerWeightedPool;
use crate::amm::curve::CurveStablePool;
use crate::amm::solidly::SolidlyStablePool;
use crate::amm::univ2::UniV2Pool;
use crate::amm::univ3::UniV3Pool;
use crate::pool::{is_first_place, token_place, Pool, SimError};
use crate::types::Address;
use vstd::prelude::*;

verus! {

/// A quote from one token to another is refused where both are the same, where there is nothing
/// to swap, where the pool cannot be used, and where it does not hold one of them; in this order,
/// and the token that comes in before the one that goes out.
pub open spec fn is_rightly_refused(
    quote: Result<int, SimError>,
    tokens: Seq<Address>,
    is_usable: bool,
    token_in: Address,
    token_out: Address,
    amount_in: int,
) -> bool {
    if token_in == token_out {
        quote == Err::<int, SimError>(SimError::SameToken)
    } else if amount_in == 0 {
        quote == Err::<int, SimError>(SimError::ZeroAmount)
    } else if !is_usable {
        quote matches Err(SimError::BadConfig(_))
    } else {
        &&& !tokens.contains(token_in) ==> quote == Err::<int, SimError>(
            SimError::UnknownToken(token_in),
        )
        &&& tokens.contains(token_in) && !tokens.contains(token_out) ==> quote == Err::<
            int,
            SimError,
        >(SimError::UnknownToken(token_out))
    }
}

proof fn lemma_pair(a: Address, b: Address, t: Address)
    ensures
        seq![a, b].contains(t) <==> t == a || t == b,
{
    assert(seq![a, b][0] == a && seq![a, b][1] == b);
}

/// A swap through two reserves that it could be made through is refused if one is empty.
pub open spec fn is_refused_when_empty(
    quote: Result<int, SimError>,
    token0: Address,
    token1: Address,
    is_usable: bool,
    is_empty: bool,
    token_in: Address,
    token_out: Address,
    amount_in: int,
) -> bool {
    is_usable && is_empty && amount_in != 0 && token_in != token_out && (token_in == token0
        || token_in == token1) && (token_out == token0 || token_out == token1) ==> quote == Err::<
        int,
        SimError,
    >(SimError::InsufficientLiquidity)
}

/// Pairs refuse what they cannot swap.
pub proof fn pairs_refuse_what_they_cannot_swap(
    v2: UniV2Pool,
    volatile: AerodromeVolatilePool,
    stable: SolidlyStablePool,
    a: Address,
    b: Address,
    x: int,
)
    ensures
        is_rightly_refused(
            v2.spec_quote(a, b, x),
            seq![v2.token0, v2.token1],
            v2.fee_bps < 10_000,
            a,
            b,
            x,
        ),
        is_rightly_refused(
            volatile.spec_quote(a, b, x),
            seq![volatile.token0, volatile.token1],
            volatile.fee_bps < 10_000,
            a,
            b,
            x,
        ),
        is_rightly_refused(
            stable.spec_quote(a, b, x),
            seq![stable.token0, stable.token1],
            stable.fee_bps < 10_000,
            a,
            b,
            x,
        ),
        is_refused_when_empty(
            v2.spec_quote(a, b, x),
            v2.token0,
            v2.token1,
            v2.fee_bps < 10_000,
            v2.reserve0@ == 0 || v2.reserve1@ == 0,
            a,
            b,
            x,
        ),
        is_refused_when_empty(
            volatile.spec_quote(a, b, x),
            volatile.token0,
            volatile.token1,
            volatile.fee_bps < 10_000,
            volatile.reserve0@ == 0 || volatile.reserve1@ == 0,
            a,
            b,
            x,
        ),
        is_refused_when_empty(
            stable.spec_quote(a, b, x),
            stable.token0,
            stable.token1,
            stable.fee_bps < 10_000,
            stable.reserve0@ == 0 || stable.reserve1@ == 0,
            a,
            b,
            x,
        ),
{
    lemma_pair(v2.token0, v2.token1, a);
    lemma_pair(v2.token0, v2.token1, b);
    lemma_pair(volatile.token0, volatile.token1, a);
    lemma_pair(volatile.token0, volatile.token1, b);
    lemma_pair(stable.token0, stable.token1, a);
    lemma_pair(stable.token0, stable.token1, b);
}

/// V3 pools refuse what they cannot swap.
pub proof fn v3_pools_refuse_what_they_cannot_swap(v3: UniV3Pool, a: Address, b: Address, x: int)
    ensures
        is_rightly_refused(
            v3.spec_quote(a, b, x),
            seq![v3.token0, v3.token1],
            true,
            a,
            b,
            x,
        ),
{
    lemma_pair(v3.token0, v3.token1, a);
    lemma_pair(v3.token0, v3.token1, b);
}

proof fn lemma_first_place(tokens: Seq<Address>, token: Address, n: int)
    requires
        0 <= n <= tokens.len(),
        forall|j: int| 0 <= j < n ==> tokens[j] != token,
        tokens.contains(token),
    ensures
        exists|i: int| is_first_place(tokens, token, i),
    decreases tokens.len() - n,
{
    if n == tokens.len() {
        let i = choose|i: int| 0 <= i < tokens.len() && tokens[i] == token;
        assert(false);
    } else if tokens[n] == token {
        assert(is_first_place(tokens, token, n));
    } else {
        lemma_first_place(tokens, token, n + 1);
    }
}

/// A token's place is its first one, and only a token that is there has one.
pub proof fn tokens_have_their_place(tokens: Seq<Address>, token: Address)
    ensures
        token_place(tokens, token) is Some <==> tokens.contains(token),
        match token_place(tokens, token) {
            Some(i) => 0 <= i < tokens.len() && tokens[i] == token && forall|j: int|
                0 <= j < i ==> #[trigger] tokens[j] != token,
            None => true,
        },
{
    if tokens.contains(token) {
        lemma_first_place(tokens, token, 0);
    }
}

/// Pools of more than two tokens refuse what they cannot swap.
pub proof fn larger_pools_refuse_what_they_cannot_swap(
    curve: CurveStablePool,
    weighted: BalancerWeightedPool,
    a: Address,
    b: Address,
    x: int,
)
    ensures
        is_rightly_refused(
            curve.spec_quote(a, b, x),
            curve.coins@,
            curve.balances@.len() == curve.coins@.len() && curve.rates@.len()
                == curve.coins@.len(),
            a,
            b,
            x,
        ),
        is_rightly_refused(
            weighted.spec_quote(a, b, x),
            weighted.tokens@,
            weighted.balances@.len() == weighted.tokens@.len() && weighted.weights@.len()
                == weighted.tokens@.len() && weighted.decimals@.len() == weighted.tokens@.len(),
            a,
            b,
            x,
        ),
{
    tokens_have_their_place(curve.coins@, a);
    tokens_have_their_place(curve.coins@, b);
    tokens_have_their_place(weighted.tokens@, a);
    tokens_have_their_place(weighted.tokens@, b);
}

} // verus!
