//! Text for people.
use arb::book::{PoolBook, TokenInfo};
use arb::live::base::synced::Verdict;
use arb::report::{
    net_text, path_text, token_label, units_text, verdict_text, watch_path_text, watch_token_label,
};
use arb::types::{Address, U256};

fn book() -> PoolBook {
    let mut book = PoolBook::empty("base");
    book.tokens.insert(
        "USDC".to_string(),
        TokenInfo { address: Address::repeat_byte(0x11), decimals: 6 },
    );
    book.tokens.insert(
        "WETH".to_string(),
        TokenInfo { address: Address::repeat_byte(0x22), decimals: 18 },
    );
    book
}

#[test]
fn labels_are_symbols_or_short_addresses() {
    let book = book();
    assert_eq!(token_label(&book, Address::repeat_byte(0x22)), "WETH");
    // The checksummed text of the zero address has no capitals.
    assert_eq!(token_label(&book, Address::zero()), "0x00000000…");
    let mixed = Address { hi: 0xd8dA6BF2, lo: 0x6964aF9D7eEd9e03E53415D37aA96045 };
    assert_eq!(token_label(&book, mixed), "0xd8dA6BF2…");
}

#[test]
fn paths_join_labels() {
    let book = book();
    let (a, b) = (Address::repeat_byte(0x11), Address::repeat_byte(0x22));
    assert_eq!(path_text(&book, &[a, b, a], "->"), "USDC->WETH->USDC");
    assert_eq!(path_text(&book, &[b], "->"), "WETH");
    assert_eq!(path_text(&book, &[], "->"), "");
}

#[test]
fn amounts_in_whole_units() {
    let scale = U256::from_u64(1_000_000);
    assert_eq!(units_text(U256::from_u64(1_234_567_890), scale), "1234.567890");
    assert_eq!(units_text(U256::from_u64(42), scale), "0.000042");
    assert_eq!(units_text(U256::zero(), scale), "0.000000");
    // A finer unit has more digits than six.
    assert_eq!(units_text(U256::from_u64(123_456_789), U256::from_u64(100_000_000)), "1.23456789");
}

#[test]
fn net_profit_in_whole_units() {
    let scale = U256::from_u64(1_000_000);
    assert_eq!(net_text(Some(U256::from_u64(2_500_000)), scale), "+2 USDC ✅");
    assert_eq!(net_text(None, scale), "unprofitable");
}

#[test]
fn verdicts() {
    let scale = U256::from_u64(1_000_000);
    let x = U256::from_u64(1_500_000);
    assert_eq!(verdict_text(Verdict::Profit(x), scale), "chain +1.500000");
    assert_eq!(verdict_text(Verdict::Loss(x), scale), "chain -1.500000 (not profitable)");
    assert_eq!(verdict_text(Verdict::NotACycle, scale), "chain: reverts / not a real cycle");
}

#[test]
fn the_watcher_labels_by_the_last_symbol_or_both_ends() {
    let mut book = book();
    book.tokens.insert(
        "weth.e".to_string(),
        TokenInfo { address: Address::repeat_byte(0x22), decimals: 18 },
    );
    assert_eq!(token_label(&book, Address::repeat_byte(0x22)), "WETH");
    assert_eq!(watch_token_label(&book, Address::repeat_byte(0x22)), "weth.e");
    let mixed = Address { hi: 0xd8dA6BF2, lo: 0x6964aF9D7eEd9e03E53415D37aA96045 };
    assert_eq!(watch_token_label(&book, mixed), "0xd8dA…6045");
    let usdc = Address::repeat_byte(0x11);
    assert_eq!(watch_path_text(&book, &[usdc, mixed, usdc]), "USDC->0xd8dA…6045->USDC");
    assert_eq!(watch_path_text(&book, &[]), "");
}
