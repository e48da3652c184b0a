//! Counter-based random state: a ChaCha20 seed, a stream number and a
//! word position. Every draw reads one keystream position and advances
//! the position, so the same state always yields the same draws.

use rand_chacha::rand_core::{Rng, SeedableRng};
use rand_chacha::ChaCha20Rng;
use vstd::prelude::*;

verus! {

/// The 32-bit keystream word that ChaCha20 with the given seed and
/// stream produces at the given word position.
pub uninterp spec fn chacha20_word(seed: Seq<u8>, stream: u64, word_pos: u128) -> u32;

/// The 64-bit value of a draw that starts at `word_pos`: the word there in
/// the low half, the next word in the high half.
pub open spec fn chacha20_double_word(seed: Seq<u8>, stream: u64, word_pos: u128) -> u64 {
    ((chacha20_word(seed, stream, (word_pos + 1) as u128) as u64) << 32u64) | (chacha20_word(
        seed,
        stream,
        word_pos,
    ) as u64)
}

/// Calls `ChaCha20Rng::next_u32` on a generator seeded with `seed`,
/// switched to `stream` and sought to `word_pos`. ChaCha20 is a
/// counter-mode cipher, so the word depends on these three values only.
#[verifier::external_body]
fn chacha20_u32_at(seed: [u8; 32], stream: u64, word_pos: u128) -> (w: u32)
    ensures
        w == chacha20_word(seed@, stream, word_pos),
{
    let mut g = ChaCha20Rng::from_seed(seed);
    g.set_stream(stream);
    g.set_word_pos(word_pos);
    g.next_u32()
}

/// Calls `ChaCha20Rng::next_u64` on a generator seeded with `seed`,
/// switched to `stream` and sought to `word_pos`. The generator reads the
/// word at `word_pos` and the one after it, and returns the second shifted
/// above the first.
#[verifier::external_body]
fn chacha20_u64_at(seed: [u8; 32], stream: u64, word_pos: u128) -> (w: u64)
    requires
        word_pos < u128::MAX,
    ensures
        w == chacha20_double_word(seed@, stream, word_pos),
{
    let mut g = ChaCha20Rng::from_seed(seed);
    g.set_stream(stream);
    g.set_word_pos(word_pos);
    g.next_u64()
}

/// Position of a ChaCha20 keystream: seed, stream and the offset in
/// 32-bit words from the start of the stream.
#[derive(Clone, Copy, Debug, PartialEq, Eq)]
pub struct RngState {
    pub seed: [u8; 32],
    pub stream: u64,
    pub word_pos: u128,
}

impl RngState {
    /// State at the start of stream 0 of `seed`.
    pub fn from_seed(seed: [u8; 32]) -> (r: Self)
        ensures
            r.seed == seed,
            r.stream == 0,
            r.word_pos == 0,
    {
        RngState { seed, stream: 0, word_pos: 0 }
    }

    /// State at an explicit stream and word position.
    pub fn from_parts(seed: [u8; 32], stream: u64, word_pos: u128) -> (r: Self)
        ensures
            r.seed == seed,
            r.stream == stream,
            r.word_pos == word_pos,
    {
        RngState { seed, stream, word_pos }
    }

    /// Draws the word at the current position and advances by one word.
    pub fn next_u32(&mut self) -> (w: u32)
        requires
            old(self).word_pos < u128::MAX,
        ensures
            w == chacha20_word(old(self).seed@, old(self).stream, old(self).word_pos),
            final(self).seed == old(self).seed,
            final(self).stream == old(self).stream,
            final(self).word_pos == old(self).word_pos + 1,
    {
        let w = chacha20_u32_at(self.seed, self.stream, self.word_pos);
        self.word_pos = self.word_pos + 1;
        w
    }

    /// Draws 64 bits starting at the current position and advances by two
    /// words.
    pub fn next_u64(&mut self) -> (w: u64)
        requires
            old(self).word_pos < u128::MAX - 1,
        ensures
            w == chacha20_double_word(old(self).seed@, old(self).stream, old(self).word_pos),
            final(self).seed == old(self).seed,
            final(self).stream == old(self).stream,
            final(self).word_pos == old(self).word_pos + 2,
    {
        let w = chacha20_u64_at(self.seed, self.stream, self.word_pos);
        self.word_pos = self.word_pos + 2;
        w
    }
}

} // verus!
