//! Tick bitmaps.
use arb::amm::univ3::{MAX_TICK, MIN_TICK};
use arb::live::base::v3state::{
    compress, full_words, initialized_ticks, multicall3, net_ticks, ticks_full, window_around,
    window_to_read, window_words, word_pos, words_between, words_to_read,
};
use arb::types::U256;

#[test]
fn compression_rounds_down() {
    assert_eq!(compress(120, 60), 2);
    assert_eq!(compress(119, 60), 1);
    assert_eq!(compress(-1, 60), -1);
    assert_eq!(compress(-60, 60), -1);
    assert_eq!(compress(-61, 60), -2);
    assert_eq!(compress(0, 1), 0);
    assert_eq!(compress(7, -2), -4);
}

#[test]
fn a_word_holds_256_ticks() {
    assert_eq!(word_pos(0), 0);
    assert_eq!(word_pos(255), 0);
    assert_eq!(word_pos(256), 1);
    assert_eq!(word_pos(-1), -1);
    assert_eq!(word_pos(-256), -1);
    assert_eq!(word_pos(-257), -2);
}

#[test]
fn the_words_of_a_range() {
    assert_eq!(full_words(60), (word_pos(compress(MIN_TICK, 60)), word_pos(compress(MAX_TICK, 60))));
    assert_eq!(full_words(1), (-3466, 3465));
    assert_eq!(window_words(60, -100, 100), (-1, 0));
    // Ticks beyond the range are brought into it.
    assert_eq!(window_words(1, i32::MIN, i32::MAX), full_words(1));
    assert_eq!(words_between(-2, 1), vec![-2, -1, 0, 1]);
    assert_eq!(words_between(1, 0), Vec::<i16>::new());
    assert_eq!(window_around(100, 2_000), (-1_900, 2_100));
    assert_eq!(window_to_read(100, 2_000), Some((-1_900, 2_100)));
    assert_eq!(window_to_read(100, 0), None);
    assert_eq!(words_to_read(60, Some((-100, 100))), (-1, 0));
    assert_eq!(words_to_read(60, None), full_words(60));
}

#[test]
fn set_bits_are_initialized_ticks() {
    // Bits 0 and 255 of word -1, bit 3 of word 0; word 1 could not be read.
    let w = U256::from_limbs(1, 0, 0, 0x8000_0000_0000_0000);
    let ticks = initialized_ticks(
        &[0, -1, 1],
        &[Some(U256::from_u64(8)), Some(w), None],
        60,
    );
    assert_eq!(ticks, vec![-256 * 60, -60, 180]);
    assert!(initialized_ticks(&[5], &[Some(U256::zero())], 1).is_empty());
}

#[test]
fn every_tick_on_the_grid_is_found_again() {
    for tick in [-887_220, -60, 0, 60, 15_360, 887_220] {
        let compressed = compress(tick, 60);
        let w = word_pos(compressed);
        let bit = compressed.rem_euclid(256) as usize;
        let mut limbs = [0u64; 4];
        limbs[bit / 64] = 1 << (bit % 64);
        let word = U256::from_limbs(limbs[0], limbs[1], limbs[2], limbs[3]);
        assert_eq!(initialized_ticks(&[w], &[Some(word)], 60), vec![tick]);
        let (lo, hi) = full_words(60);
        assert!(lo <= w && w <= hi);
    }
}

#[test]
fn ticks_with_their_liquidity() {
    let full = ticks_full(&[-60, 0, 60], &[Some((5, 5)), None, Some((7, -7))]);
    assert_eq!(full, vec![(-60, 5, 5), (60, 7, -7)]);
    assert_eq!(ticks_full(&[1, 2], &[Some((1, 1))]), vec![(1, 1, 1)]);
    let net = net_ticks(&full);
    assert_eq!(net.len(), 2);
    assert_eq!((net[1].tick, net[1].liquidity_net), (60, -7));
}

#[test]
fn the_multicall_contract() {
    assert_eq!((multicall3().hi, multicall3().lo), (0xcA11bde0, 0x5977b3631167028862bE2a173976CA11));
}
