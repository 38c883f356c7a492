use arb::config::{Chain, Exchange, Selection};

#[test]
fn parses_chains() {
    assert_eq!(Chain::parse("base").unwrap(), Chain::Base);
    assert_eq!(Chain::parse("BSC").unwrap(), Chain::Bsc);
    assert_eq!(Chain::parse("bnb").unwrap(), Chain::Bsc);
    assert!(Chain::parse("solana").is_err());
}

#[test]
fn parses_exchanges_with_aliases() {
    assert_eq!(Exchange::parse("uni-v3").unwrap(), Exchange::UniswapV3);
    assert_eq!(Exchange::parse("pancakeV2").unwrap(), Exchange::PancakeV2);
    assert_eq!(Exchange::parse("slipstream").unwrap(), Exchange::AerodromeSlipstream);
}

#[test]
fn validates_chain_exchange_compat() {
    // Aerodrome only on Base.
    assert!(Selection::build("base", &["aerodrome".into()]).is_ok());
    assert!(Selection::build("bsc", &["aerodrome".into()]).is_err());
    // Pancake only on BSC.
    assert!(Selection::build("bsc", &["pancakev3".into()]).is_ok());
    assert!(Selection::build("base", &["pancakev3".into()]).is_err());
    // SunSwap only on Tron.
    assert!(Selection::build("tron", &["sunswap".into()]).is_ok());
}

#[test]
fn requires_at_least_one_exchange() {
    assert!(Selection::build("base", &[]).is_err());
}

#[test]
fn rejections_say_what_is_wrong() {
    assert_eq!(
        Chain::parse("Solana"),
        Err("unknown chain 'solana' (expected base|bsc|tron)".to_string())
    );
    assert_eq!(Exchange::parse("Sushi-Swap"), Err("unknown exchange 'sushiswap'".to_string()));
    assert_eq!(
        Selection::build("bsc", &["univ2".into(), "aero".into(), "nope".into()]).unwrap_err(),
        "Aerodrome is not available on bsc"
    );
    assert_eq!(Selection::build("base", &[]).unwrap_err(), "at least one --exchange is required");
    let s = Selection::build("TRON", &["Sun_Swap".into()]).unwrap();
    assert_eq!(s.chain, Chain::Tron);
    assert_eq!(s.exchanges, vec![Exchange::SunSwap]);
}

#[test]
fn chains_know_themselves() {
    assert_eq!(Chain::Base.chain_id(), 8453);
    assert_eq!(Chain::Bsc.chain_id(), 56);
    assert_eq!(Chain::Tron.chain_id(), 728126428);
    assert_eq!(Chain::Base.native_symbol(), "ETH");
    assert_eq!(Chain::Bsc.rpc_env_var(), "BSC_WSS_URL");
    assert!(Chain::Bsc.is_evm());
    assert!(!Chain::Tron.is_evm());
    assert_eq!(Chain::Tron.name(), "tron");
    assert_eq!(Exchange::BalancerV2.name(), "BalancerV2");
}
