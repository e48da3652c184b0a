use salib::rng::RngState;

#[test]
fn next_u32_advances_one_word_and_is_repeatable() {
    let mut a = RngState::from_seed([7; 32]);
    let mut b = RngState::from_parts([7; 32], 0, 0);
    assert_eq!(a, b);
    let x = a.next_u32();
    assert_eq!(a.word_pos, 1);
    assert_eq!(x, b.next_u32());
    let _ = a.next_u32();
    assert_eq!(a.word_pos, 2);
}

#[test]
fn next_u64_advances_two_words() {
    let mut a = RngState::from_seed([7; 32]);
    let w = a.next_u64();
    assert_eq!(a.word_pos, 2);
    let mut b = RngState::from_seed([7; 32]);
    let lo = b.next_u32();
    let hi = b.next_u32();
    assert_eq!(w, u64::from(lo) | (u64::from(hi) << 32));
}

#[test]
fn streams_differ() {
    let mut a = RngState::from_parts([0; 32], 1, 0);
    let mut b = RngState::from_parts([0; 32], 2, 0);
    assert_ne!(a.next_u64(), b.next_u64());
}

#[test]
fn keystream_matches_chacha20_zero_key_vector() {
    // ChaCha20, all-zero key and nonce: the first keystream words.
    let mut rng = RngState::from_seed([0; 32]);
    assert_eq!(rng.next_u32(), 0xade0_b876);
    assert_eq!(rng.next_u32(), 0x903d_f1a0);
    let mut rng = RngState::from_seed([0; 32]);
    assert_eq!(rng.next_u64(), 0x903d_f1a0_ade0_b876);
    // Seeking to word 1 reads the second word.
    let mut rng = RngState::from_parts([0; 32], 0, 1);
    assert_eq!(rng.next_u32(), 0x903d_f1a0);
}
