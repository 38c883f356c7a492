//! Laws of books, sources and selections: what is found in them, and what is added.
use crate::book::{
    codehash_place, decimals_map, last_pool_place, lists_pool, name_place, pool_place, pools_with,
    symbol_place, ExchangeInfo, PoolInfo, TokenInfo,
};
use crate::config::{
    built_selection, chain_named, deployed_on, exchange_named, parsed_chain, parsed_exchange, selected, Chain, Exchange,
};
use crate::report::last_symbol_place;
use crate::types::{Address, B256};
use vstd::prelude::*;

verus! {

/// A pool is found at its first place in a list.
pub proof fn pools_are_found_first(pools: Seq<PoolInfo>, address: Address)
    ensures
        0 <= pool_place(pools, address) <= pools.len(),
        forall|i: int|
            0 <= i < pool_place(pools, address) ==> (#[trigger] pools[i]).address != address,
        pool_place(pools, address) < pools.len() ==> pools[pool_place(pools, address)].address
            == address,
        lists_pool(pools, address) <==> exists|i: int|
            0 <= i < pools.len() && (#[trigger] pools[i]).address == address,
    decreases pools.len(),
{
    if pools.len() > 0 && pools[0].address != address {
        let rest = pools.drop_first();
        pools_are_found_first(rest, address);
        let at = pool_place(rest, address);
        assert forall|i: int| 0 <= i < at + 1 implies (#[trigger] pools[i]).address != address by {
            if i > 0 {
                assert(rest[i - 1] == pools[i]);
            }
        }
        if at < rest.len() {
            assert(pools[at + 1] == rest[at]);
        }
    } else if pools.len() > 0 {
        assert(pools[0].address == address);
    }
}

/// A codehash names the first exchange that has it, and a name the first of that name.
pub proof fn exchanges_are_found_first(
    exchanges: Seq<ExchangeInfo>,
    codehash: B256,
    name: Seq<char>,
)
    ensures
        0 <= codehash_place(exchanges, codehash) <= exchanges.len(),
        forall|i: int|
            0 <= i < codehash_place(exchanges, codehash) ==> !(
            #[trigger] exchanges[i]).pool_codehashes@.contains(codehash),
        codehash_place(exchanges, codehash) < exchanges.len()
            ==> exchanges[codehash_place(exchanges, codehash)].pool_codehashes@.contains(codehash),
        0 <= name_place(exchanges, name) <= exchanges.len(),
        forall|i: int|
            0 <= i < name_place(exchanges, name) ==> (#[trigger] exchanges[i]).name@ != name,
        name_place(exchanges, name) < exchanges.len() ==> exchanges[name_place(
            exchanges,
            name,
        )].name@ == name,
    decreases exchanges.len(),
{
    if exchanges.len() > 0 {
        let rest = exchanges.drop_first();
        exchanges_are_found_first(rest, codehash, name);
        assert(forall|i: int|
            0 < i < exchanges.len() ==> rest[i - 1] == #[trigger] exchanges[i]);
    }
}

/// A pool's details are those of its last entry.
pub proof fn details_are_those_of_the_last_entry(pools: Seq<PoolInfo>, address: Address, n: int)
    requires
        0 <= n <= pools.len(),
    ensures
        match last_pool_place(pools, address, n) {
            Some(i) => 0 <= i < n && pools[i].address == address && forall|j: int|
                i < j < n ==> (#[trigger] pools[j]).address != address,
            None => forall|j: int| 0 <= j < n ==> (#[trigger] pools[j]).address != address,
        },
    decreases n,
{
    if n > 0 && pools[n - 1].address != address {
        details_are_those_of_the_last_entry(pools, address, n - 1);
    }
}

/// A token goes by the first symbol that names it in a report, and by the last while watching.
pub proof fn tokens_go_by_their_symbols(
    symbols: Seq<Seq<char>>,
    tokens: Map<Seq<char>, TokenInfo>,
    address: Address,
    n: int,
)
    requires
        0 <= n <= symbols.len(),
    ensures
        match symbol_place(symbols, tokens, address, n) {
            Some(i) => 0 <= i < n && tokens[symbols[i]].address == address && forall|j: int|
                0 <= j < i ==> tokens[#[trigger] symbols[j]].address != address,
            None => forall|j: int|
                0 <= j < n ==> tokens[#[trigger] symbols[j]].address != address,
        },
        match last_symbol_place(symbols, tokens, address, n) {
            Some(i) => 0 <= i < n && tokens[symbols[i]].address == address && forall|j: int|
                i < j < n ==> tokens[#[trigger] symbols[j]].address != address,
            None => forall|j: int|
                0 <= j < n ==> tokens[#[trigger] symbols[j]].address != address,
        },
    decreases n,
{
    if n > 0 {
        tokens_go_by_their_symbols(symbols, tokens, address, n - 1);
    }
}

/// What a merge adds: every address of the other book that is not listed yet, once, with its
/// first entry there.
pub proof fn merging_adds_what_is_missing(
    pools: Seq<PoolInfo>,
    added: Seq<PoolInfo>,
    address: Address,
)
    ensures
        ({
            let all = pools_with(pools, added);
            &&& pools.len() <= all.len() <= pools.len() + added.len()
            &&& forall|i: int| 0 <= i < pools.len() ==> #[trigger] all[i] == pools[i]
            &&& lists_pool(all, address) <==> lists_pool(pools, address) || lists_pool(
                added,
                address,
            )
            &&& lists_pool(added, address) && !lists_pool(pools, address) ==> all.contains(
                added[pool_place(added, address)],
            )
            &&& forall|i: int, j: int|
                pools.len() <= i < j < all.len() ==> (#[trigger] all[i]).address != (
                #[trigger] all[j]).address
            &&& forall|i: int|
                pools.len() <= i < all.len() ==> !lists_pool(pools, (#[trigger] all[i]).address)
        }),
    decreases added.len(),
{
    pools_are_found_first(added, address);
    pools_are_found_first(pools, address);
    pools_are_found_first(pools_with(pools, added), address);
    if added.len() > 0 {
        let rest = added.drop_last();
        let last = added.last();
        let before = pools_with(pools, rest);
        let all = pools_with(pools, added);
        merging_adds_what_is_missing(pools, rest, address);
        merging_adds_what_is_missing(pools, rest, last.address);
        pools_are_found_first(rest, address);
        pools_are_found_first(before, address);
        pools_are_found_first(before, last.address);
        pools_are_found_first(pools, last.address);
        assert(forall|i: int| 0 <= i < rest.len() ==> rest[i] == #[trigger] added[i]);
        assert(added[added.len() - 1] == last);
        if lists_pool(before, last.address) {
            assert(all == before);
        } else {
            assert(all == before.push(last));
            assert(all[before.len() as int] == last);
            assert forall|i: int| 0 <= i < before.len() implies (#[trigger] before[i]).address
                != last.address by {
            }
        }
        if lists_pool(before, address) {
            let i = pool_place(before, address);
            assert(all[i].address == address);
        }
        if lists_pool(rest, address) {
            let i = pool_place(rest, address);
            assert(added[i] == rest[i]);
            assert(pool_place(added, address) == i);
            if !lists_pool(pools, address) {
                let k = choose|k: int| 0 <= k < before.len() && before[k] == rest[i];
                assert(all[k] == rest[i]);
            }
        }
    }
}

/// A selection is what was named, each exchange in its place, on a chain that has them all.
pub proof fn selections_are_what_was_named(
    chain: Seq<char>,
    names: Seq<Seq<char>>,
    c: Chain,
    exchanges: Seq<Exchange>,
)
    ensures
        built_selection(chain, names) == Ok::<(Chain, Seq<Exchange>), Seq<char>>((c, exchanges))
            <==> {
            &&& parsed_chain(chain) == Ok::<Chain, Seq<char>>(c)
            &&& names.len() > 0
            &&& exchanges.len() == names.len()
            &&& forall|i: int|
                0 <= i < names.len() ==> parsed_exchange(#[trigger] names[i]) == Ok::<
                    Exchange,
                    Seq<char>,
                >(exchanges[i])
            &&& forall|i: int|
                0 <= i < exchanges.len() ==> deployed_on(#[trigger] exchanges[i], c)
        },
{
    if let Ok(on) = parsed_chain(chain) {
        lemma_selected(on, names, exchanges);
    }
}

proof fn lemma_selected(c: Chain, names: Seq<Seq<char>>, exchanges: Seq<Exchange>)
    ensures
        selected(c, names) == Ok::<Seq<Exchange>, Seq<char>>(exchanges) <==> {
            &&& exchanges.len() == names.len()
            &&& forall|i: int|
                0 <= i < names.len() ==> parsed_exchange(#[trigger] names[i]) == Ok::<
                    Exchange,
                    Seq<char>,
                >(exchanges[i])
            &&& forall|i: int|
                0 <= i < exchanges.len() ==> deployed_on(#[trigger] exchanges[i], c)
        },
    decreases names.len(),
{
    if names.len() == 0 {
        if exchanges.len() == 0 {
            assert(exchanges == Seq::<Exchange>::empty());
        }
    } else {
        let rest = names.drop_last();
        let n = rest.len() as int;
        assert(forall|i: int| 0 <= i < n ==> rest[i] == #[trigger] names[i]);
        if let Ok(before) = selected(c, rest) {
            lemma_selected(c, rest, before);
            if exchanges.len() == names.len() {
                let front = exchanges.drop_last();
                lemma_selected(c, rest, front);
                assert(exchanges == front.push(exchanges.last()));
            }
            if selected(c, names) == Ok::<Seq<Exchange>, Seq<char>>(exchanges) {
                assert(exchanges == before.push(exchanges.last()));
                assert(exchanges.drop_last() == before);
                assert forall|i: int| 0 <= i < names.len() implies parsed_exchange(
                    #[trigger] names[i],
                ) == Ok::<Exchange, Seq<char>>(exchanges[i]) by {
                    if i < n {
                        assert(rest[i] == names[i]);
                        assert(exchanges[i] == before[i]);
                    }
                }
                assert forall|i: int| 0 <= i < exchanges.len() implies deployed_on(
                    #[trigger] exchanges[i],
                    c,
                ) by {
                    if i < n {
                        assert(exchanges[i] == before[i]);
                    }
                }
            }
        } else if exchanges.len() == names.len() {
            let front = exchanges.drop_last();
            lemma_selected(c, rest, front);
            if (forall|i: int|
                0 <= i < names.len() ==> parsed_exchange(#[trigger] names[i]) == Ok::<
                    Exchange,
                    Seq<char>,
                >(exchanges[i])) && (forall|i: int|
                0 <= i < exchanges.len() ==> deployed_on(#[trigger] exchanges[i], c)) {
                assert forall|i: int| 0 <= i < front.len() implies deployed_on(
                    #[trigger] front[i],
                    c,
                ) by {
                    assert(front[i] == exchanges[i]);
                }
                assert forall|i: int| 0 <= i < rest.len() implies parsed_exchange(
                    #[trigger] rest[i],
                ) == Ok::<Exchange, Seq<char>>(front[i]) by {
                    assert(rest[i] == names[i]);
                }
            }
        }
    }
}

/// Which exchanges a chain has.
pub proof fn chains_have_their_exchanges(e: Exchange)
    ensures
        deployed_on(e, Chain::Tron) <==> e is SunSwap,
        deployed_on(e, Chain::Base) <==> !(e is SunSwap || e is PancakeV2 || e is PancakeV3),
        deployed_on(e, Chain::Bsc) <==> !(e is SunSwap || e is Aerodrome
            || e is AerodromeSlipstream),
{
}

/// A token has the decimals of the last symbol that names it.
pub proof fn decimals_are_those_of_the_last_symbol(
    symbols: Seq<Seq<char>>,
    tokens: Map<Seq<char>, TokenInfo>,
    n: int,
    address: Address,
)
    requires
        0 <= n <= symbols.len(),
    ensures
        decimals_map(symbols, tokens, n).dom().contains(address) <==> exists|i: int|
            0 <= i < n && tokens[#[trigger] symbols[i]].address == address,
        forall|i: int|
            0 <= i < n && tokens[#[trigger] symbols[i]].address == address && (forall|j: int|
                i < j < n ==> tokens[#[trigger] symbols[j]].address != address) ==> decimals_map(
                symbols,
                tokens,
                n,
            )[address] == tokens[symbols[i]].decimals,
    decreases n,
{
    if n > 0 {
        decimals_are_those_of_the_last_symbol(symbols, tokens, n - 1, address);
        if tokens[symbols[n - 1]].address == address {
            assert(decimals_map(symbols, tokens, n).dom().contains(address));
        }
    }
}

/// A chain goes by its names, and no other text names one.
pub proof fn chains_go_by_their_names(name: Seq<char>)
    ensures
        match chain_named(name) {
            Some(Chain::Base) => name == "base"@,
            Some(Chain::Bsc) => name == "bsc"@ || name == "bnb"@,
            Some(Chain::Tron) => name == "tron"@,
            None => name != "base"@ && name != "bsc"@ && name != "bnb"@ && name != "tron"@,
        },
{
}

/// An exchange goes by its names, and no other text names one.
pub proof fn exchanges_go_by_their_names(name: Seq<char>)
    ensures
        match exchange_named(name) {
            Some(Exchange::UniswapV2) => name == "uniswapv2"@ || name == "univ2"@,
            Some(Exchange::UniswapV3) => name == "uniswapv3"@ || name == "univ3"@,
            Some(Exchange::PancakeV2) => name == "pancakev2"@ || name == "pancakeswapv2"@,
            Some(Exchange::PancakeV3) => name == "pancakev3"@ || name == "pancakeswapv3"@,
            Some(Exchange::Aerodrome) => name == "aerodrome"@ || name == "aero"@,
            Some(Exchange::AerodromeSlipstream) => name == "aerodromeslipstream"@ || name
                == "slipstream"@,
            Some(Exchange::SunSwap) => name == "sunswap"@ || name == "sun"@,
            Some(Exchange::Curve) => name == "curve"@,
            Some(Exchange::BalancerV2) => name == "balancer"@ || name == "balancerv2"@,
            None => {
                &&& name != "uniswapv2"@ && name != "univ2"@
                &&& name != "uniswapv3"@ && name != "univ3"@
                &&& name != "pancakev2"@ && name != "pancakeswapv2"@
                &&& name != "pancakev3"@ && name != "pancakeswapv3"@
                &&& name != "aerodrome"@ && name != "aero"@
                &&& name != "aerodromeslipstream"@ && name != "slipstream"@
                &&& name != "sunswap"@ && name != "sun"@
                &&& name != "curve"@
                &&& name != "balancer"@ && name != "balancerv2"@
            },
        },
{
}

} // verus!
