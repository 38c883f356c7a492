//! Chain and exchange selection shared across all commands.
use crate::text::{lowered, same_text, strip_dashes, to_lower, without_dashes};
use vstd::prelude::*;
use vstd::string::StringExecFns;

verus! {

/// Supported chains. Tron is TVM (not EVM): it can be selected, but has no streaming client.
#[derive(Debug, Clone, Copy, PartialEq, Eq, Structural)]
pub enum Chain {
    Base,
    Bsc,
    Tron,
}

/// The chain of a name in small letters.
pub open spec fn chain_named(name: Seq<char>) -> Option<Chain> {
    if name == "base"@ {
        Some(Chain::Base)
    } else if name == "bsc"@ || name == "bnb"@ {
        Some(Chain::Bsc)
    } else if name == "tron"@ {
        Some(Chain::Tron)
    } else {
        None
    }
}

/// What is said of a chain that is not known.
pub open spec fn unknown_chain(name: Seq<char>) -> Seq<char> {
    "unknown chain '"@ + name + "' (expected base|bsc|tron)"@
}

/// The outcome of parsing a chain, its message as characters.
pub open spec fn chain_view(r: Result<Chain, String>) -> Result<Chain, Seq<char>> {
    match r {
        Ok(c) => Ok(c),
        Err(e) => Err(e@),
    }
}

/// The chain that `s` names, whatever its case.
pub open spec fn parsed_chain(s: Seq<char>) -> Result<Chain, Seq<char>> {
    match chain_named(lowered(s)) {
        Some(c) => Ok(c),
        None => Err(unknown_chain(lowered(s))),
    }
}

impl Chain {
    /// The chain that `s` names, whatever its case.
    pub fn parse(s: &str) -> (r: Result<Chain, String>)
        ensures
            chain_view(r) == parsed_chain(s@),
    {
        let name = to_lower(s);
        let n = name.as_str();
        if same_text(n, "base") {
            Ok(Chain::Base)
        } else if same_text(n, "bsc") || same_text(n, "bnb") {
            Ok(Chain::Bsc)
        } else if same_text(n, "tron") {
            Ok(Chain::Tron)
        } else {
            Err("unknown chain '".to_owned().concat(n).concat("' (expected base|bsc|tron)"))
        }
    }

    /// The numeric chain id.
    pub fn chain_id(&self) -> (r: u64)
        ensures
            r == (match self {
                Chain::Base => 8453u64,
                Chain::Bsc => 56,
                Chain::Tron => 728126428,
            }),
    {
        match self {
            Chain::Base => 8453,
            Chain::Bsc => 56,
            Chain::Tron => 728126428,
        }
    }

    /// Native gas token symbol.
    pub fn native_symbol(&self) -> (r: &'static str)
        ensures
            r@ == (match self {
                Chain::Base => "ETH"@,
                Chain::Bsc => "BNB"@,
                Chain::Tron => "TRX"@,
            }),
    {
        match self {
            Chain::Base => "ETH",
            Chain::Bsc => "BNB",
            Chain::Tron => "TRX",
        }
    }

    /// The environment variable that the WS endpoint is read from.
    pub fn rpc_env_var(&self) -> (r: &'static str)
        ensures
            r@ == (match self {
                Chain::Base => "BASE_WSS_URL"@,
                Chain::Bsc => "BSC_WSS_URL"@,
                Chain::Tron => "TRON_WSS_URL"@,
            }),
    {
        match self {
            Chain::Base => "BASE_WSS_URL",
            Chain::Bsc => "BSC_WSS_URL",
            Chain::Tron => "TRON_WSS_URL",
        }
    }

    /// Whether the chain runs the EVM.
    pub fn is_evm(&self) -> (r: bool)
        ensures
            r == (*self != Chain::Tron),
    {
        match self {
            Chain::Tron => false,
            _ => true,
        }
    }

    /// The chain's name.
    pub open spec fn spec_name(self) -> Seq<char> {
        match self {
            Chain::Base => "base"@,
            Chain::Bsc => "bsc"@,
            Chain::Tron => "tron"@,
        }
    }

    /// The chain's name.
    pub fn name(&self) -> (r: &'static str)
        ensures
            r@ == self.spec_name(),
    {
        match self {
            Chain::Base => "base",
            Chain::Bsc => "bsc",
            Chain::Tron => "tron",
        }
    }
}

/// Selectable exchanges, each mapping to an AMM math family.
#[derive(Debug, Clone, Copy, PartialEq, Eq, Structural)]
pub enum Exchange {
    UniswapV2,
    UniswapV3,
    PancakeV2,
    PancakeV3,
    /// Solidly volatile and stable.
    Aerodrome,
    /// UniV3-style concentrated liquidity.
    AerodromeSlipstream,
    SunSwap,
    Curve,
    BalancerV2,
}

/// The exchange of a name in small letters without dashes.
pub open spec fn exchange_named(name: Seq<char>) -> Option<Exchange> {
    if name == "uniswapv2"@ || name == "univ2"@ {
        Some(Exchange::UniswapV2)
    } else if name == "uniswapv3"@ || name == "univ3"@ {
        Some(Exchange::UniswapV3)
    } else if name == "pancakev2"@ || name == "pancakeswapv2"@ {
        Some(Exchange::PancakeV2)
    } else if name == "pancakev3"@ || name == "pancakeswapv3"@ {
        Some(Exchange::PancakeV3)
    } else if name == "aerodrome"@ || name == "aero"@ {
        Some(Exchange::Aerodrome)
    } else if name == "aerodromeslipstream"@ || name == "slipstream"@ {
        Some(Exchange::AerodromeSlipstream)
    } else if name == "sunswap"@ || name == "sun"@ {
        Some(Exchange::SunSwap)
    } else if name == "curve"@ {
        Some(Exchange::Curve)
    } else if name == "balancer"@ || name == "balancerv2"@ {
        Some(Exchange::BalancerV2)
    } else {
        None
    }
}

/// The outcome of parsing an exchange, its message as characters.
pub open spec fn exchange_view(r: Result<Exchange, String>) -> Result<Exchange, Seq<char>> {
    match r {
        Ok(e) => Ok(e),
        Err(e) => Err(e@),
    }
}

/// The exchange that `s` names, whatever its case and its dashes.
pub open spec fn parsed_exchange(s: Seq<char>) -> Result<Exchange, Seq<char>> {
    let name = without_dashes(lowered(s));
    match exchange_named(name) {
        Some(e) => Ok(e),
        None => Err("unknown exchange '"@ + name + "'"@),
    }
}

/// Whether an exchange is deployed on a chain.
pub open spec fn deployed_on(e: Exchange, chain: Chain) -> bool {
    match chain {
        Chain::Base => e == Exchange::UniswapV2 || e == Exchange::UniswapV3 || e
            == Exchange::Aerodrome || e == Exchange::AerodromeSlipstream || e
            == Exchange::BalancerV2 || e == Exchange::Curve,
        Chain::Bsc => e == Exchange::PancakeV2 || e == Exchange::PancakeV3 || e
            == Exchange::UniswapV2 || e == Exchange::UniswapV3 || e == Exchange::Curve || e
            == Exchange::BalancerV2,
        Chain::Tron => e == Exchange::SunSwap,
    }
}

impl Exchange {
    /// The exchange that `s` names, whatever its case and its dashes.
    pub fn parse(s: &str) -> (r: Result<Exchange, String>)
        ensures
            exchange_view(r) == parsed_exchange(s@),
    {
        let name = strip_dashes(to_lower(s).as_str());
        let n = name.as_str();
        if same_text(n, "uniswapv2") || same_text(n, "univ2") {
            Ok(Exchange::UniswapV2)
        } else if same_text(n, "uniswapv3") || same_text(n, "univ3") {
            Ok(Exchange::UniswapV3)
        } else if same_text(n, "pancakev2") || same_text(n, "pancakeswapv2") {
            Ok(Exchange::PancakeV2)
        } else if same_text(n, "pancakev3") || same_text(n, "pancakeswapv3") {
            Ok(Exchange::PancakeV3)
        } else if same_text(n, "aerodrome") || same_text(n, "aero") {
            Ok(Exchange::Aerodrome)
        } else if same_text(n, "aerodromeslipstream") || same_text(n, "slipstream") {
            Ok(Exchange::AerodromeSlipstream)
        } else if same_text(n, "sunswap") || same_text(n, "sun") {
            Ok(Exchange::SunSwap)
        } else if same_text(n, "curve") {
            Ok(Exchange::Curve)
        } else if same_text(n, "balancer") || same_text(n, "balancerv2") {
            Ok(Exchange::BalancerV2)
        } else {
            Err("unknown exchange '".to_owned().concat(n).concat("'"))
        }
    }

    /// Whether this exchange is deployed on the given chain.
    pub fn supported_on(&self, chain: Chain) -> (r: bool)
        ensures
            r == deployed_on(*self, chain),
    {
        match (*self, chain) {
            (Exchange::UniswapV2 | Exchange::UniswapV3, Chain::Base) => true,
            (Exchange::Aerodrome | Exchange::AerodromeSlipstream, Chain::Base) => true,
            (Exchange::BalancerV2 | Exchange::Curve, Chain::Base) => true,
            (Exchange::PancakeV2 | Exchange::PancakeV3, Chain::Bsc) => true,
            (Exchange::UniswapV2 | Exchange::UniswapV3, Chain::Bsc) => true,
            (Exchange::Curve | Exchange::BalancerV2, Chain::Bsc) => true,
            (Exchange::SunSwap, Chain::Tron) => true,
            _ => false,
        }
    }

    /// The exchange's name.
    pub open spec fn spec_name(self) -> Seq<char> {
        match self {
            Exchange::UniswapV2 => "UniswapV2"@,
            Exchange::UniswapV3 => "UniswapV3"@,
            Exchange::PancakeV2 => "PancakeV2"@,
            Exchange::PancakeV3 => "PancakeV3"@,
            Exchange::Aerodrome => "Aerodrome"@,
            Exchange::AerodromeSlipstream => "AerodromeSlipstream"@,
            Exchange::SunSwap => "SunSwap"@,
            Exchange::Curve => "Curve"@,
            Exchange::BalancerV2 => "BalancerV2"@,
        }
    }

    /// The exchange's name.
    pub fn name(&self) -> (r: &'static str)
        ensures
            r@ == self.spec_name(),
    {
        match self {
            Exchange::UniswapV2 => "UniswapV2",
            Exchange::UniswapV3 => "UniswapV3",
            Exchange::PancakeV2 => "PancakeV2",
            Exchange::PancakeV3 => "PancakeV3",
            Exchange::Aerodrome => "Aerodrome",
            Exchange::AerodromeSlipstream => "AerodromeSlipstream",
            Exchange::SunSwap => "SunSwap",
            Exchange::Curve => "Curve",
            Exchange::BalancerV2 => "BalancerV2",
        }
    }
}

/// A validated chain and exchange selection.
#[derive(Debug, Clone)]
pub struct Selection {
    pub chain: Chain,
    pub exchanges: Vec<Exchange>,
}

/// The exchanges that the names stand for, or what is wrong with the first that cannot be used
/// on the chain.
pub open spec fn selected(chain: Chain, names: Seq<Seq<char>>) -> Result<Seq<Exchange>, Seq<char>>
    decreases names.len(),
{
    if names.len() == 0 {
        Ok(Seq::empty())
    } else {
        match selected(chain, names.drop_last()) {
            Err(e) => Err(e),
            Ok(before) => match parsed_exchange(names.last()) {
                Err(e) => Err(e),
                Ok(exchange) => if deployed_on(exchange, chain) {
                    Ok(before.push(exchange))
                } else {
                    Err(exchange.spec_name() + " is not available on "@ + chain.spec_name())
                },
            },
        }
    }
}

/// The selection that names stand for.
pub open spec fn built_selection(chain: Seq<char>, names: Seq<Seq<char>>) -> Result<
    (Chain, Seq<Exchange>),
    Seq<char>,
> {
    match parsed_chain(chain) {
        Err(e) => Err(e),
        Ok(c) => if names.len() == 0 {
            Err("at least one --exchange is required"@)
        } else {
            match selected(c, names) {
                Err(e) => Err(e),
                Ok(exchanges) => Ok((c, exchanges)),
            }
        },
    }
}

/// The characters of each name.
pub open spec fn names_of(v: Seq<String>) -> Seq<Seq<char>> {
    v.map_values(|s: String| s@)
}

/// What is wrong with one of the first names is wrong with all of them.
proof fn lemma_first_fault(chain: Chain, names: Seq<Seq<char>>, n: int)
    requires
        0 <= n <= names.len(),
        selected(chain, names.take(n)) is Err,
    ensures
        selected(chain, names) == selected(chain, names.take(n)),
    decreases names.len(),
{
    if n < names.len() {
        assert(names.drop_last().take(n) =~= names.take(n));
        lemma_first_fault(chain, names.drop_last(), n);
    } else {
        assert(names.take(n) =~= names);
    }
}

impl Selection {
    /// Build from raw strings, validating exchange/chain compatibility.
    pub fn build(chain: &str, exchanges: &[String]) -> (r: Result<Selection, String>)
        ensures
            (match r {
                Ok(s) => Ok::<(Chain, Seq<Exchange>), Seq<char>>((s.chain, s.exchanges@)),
                Err(e) => Err(e@),
            }) == built_selection(chain@, names_of(exchanges@)),
    {
        let c = match Chain::parse(chain) {
            Ok(c) => c,
            Err(e) => return Err(e),
        };
        if exchanges.len() == 0 {
            return Err("at least one --exchange is required".to_owned());
        }
        let ghost names = names_of(exchanges@);
        let mut parsed: Vec<Exchange> = Vec::new();
        let mut i: usize = 0;
        proof {
            assert(names.take(0) =~= Seq::<Seq<char>>::empty());
            assert(parsed@ =~= Seq::<Exchange>::empty());
        }
        while i < exchanges.len()
            invariant
                i <= exchanges@.len(),
                names == names_of(exchanges@),
                names.len() > 0,
                parsed_chain(chain@) == Ok::<Chain, Seq<char>>(c),
                selected(c, names.take(i as int)) == Ok::<Seq<Exchange>, Seq<char>>(parsed@),
            decreases exchanges@.len() - i,
        {
            proof {
                assert(names.take(i + 1).drop_last() =~= names.take(i as int));
                assert(names.take(i + 1).last() == exchanges@[i as int]@);
            }
            match Exchange::parse(exchanges[i].as_str()) {
                Err(e) => {
                    proof {
                        lemma_first_fault(c, names, i + 1);
                    }
                    return Err(e);
                },
                Ok(exchange) => {
                    if !exchange.supported_on(c) {
                        proof {
                            lemma_first_fault(c, names, i + 1);
                        }
                        return Err(
                            exchange.name().to_owned().concat(" is not available on ").concat(
                                c.name(),
                            ),
                        );
                    }
                    parsed.push(exchange);
                },
            }
            i = i + 1;
        }
        assert(names.take(i as int) =~= names);
        Ok(Selection { chain: c, exchanges: parsed })
    }
}

/// Case does not matter to a name, nor do dashes in an exchange's name.
pub proof fn spelling_does_not_matter(a: Seq<char>, b: Seq<char>)
    ensures
        lowered(a) == lowered(b) ==> parsed_chain(a) == parsed_chain(b),
        without_dashes(lowered(a)) == without_dashes(lowered(b)) ==> parsed_exchange(a)
            == parsed_exchange(b),
{
}

} // verus!
