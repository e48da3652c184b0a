//! Fisher–Yates shuffles driven by the keystream of an [`RngState`].
//!
//! For `i = n − 1, …, 1` the shuffle draws one word `w` and swaps
//! positions `i` and `w mod (i + 1)`; a permutation of `0..n` costs
//! `n − 1` words (none for `n = 0`).

use vstd::prelude::*;

use crate::rng::{chacha20_word, RngState};

verus! {

/// `count` consecutive keystream words starting at `start`.
pub open spec fn keystream(seed: Seq<u8>, stream: u64, start: int, count: nat) -> Seq<u32> {
    Seq::new(count, |i: int| chacha20_word(seed, stream, (start + i) as u128))
}

/// `s` with positions `i` and `k` exchanged.
pub open spec fn swap_at(s: Seq<usize>, i: int, k: int) -> Seq<usize> {
    s.update(i, s[k]).update(k, s[i])
}

/// The identity arrangement `0, 1, …, n − 1`.
pub open spec fn identity_seq(n: nat) -> Seq<usize> {
    Seq::new(n, |i: int| i as usize)
}

/// The arrangement after the first `t` Fisher–Yates steps on `0..n`; step
/// `t` swaps position `n − t` with `draws[t − 1] mod (n − t + 1)`.
pub open spec fn fisher_yates_steps(n: nat, draws: Seq<u32>, t: nat) -> Seq<usize>
    decreases t,
{
    if t == 0 {
        identity_seq(n)
    } else {
        let prev = fisher_yates_steps(n, draws, (t - 1) as nat);
        let i = n - t;
        let k = (draws[t - 1] as nat) % ((i + 1) as nat);
        swap_at(prev, i, k as int)
    }
}

/// Number of draws a shuffle of `n` items consumes.
pub open spec fn shuffle_cost(n: nat) -> nat {
    if n == 0 {
        0
    } else {
        (n - 1) as nat
    }
}

/// The Fisher–Yates shuffle of `0..n` under the given draws.
pub open spec fn fisher_yates(n: nat, draws: Seq<u32>) -> Seq<usize> {
    fisher_yates_steps(n, draws, shuffle_cost(n))
}

/// `s` is a permutation of `0..n`: every value below `n` occurs exactly
/// once and nothing else occurs.
pub open spec fn is_permutation(s: Seq<usize>, n: nat) -> bool {
    &&& s.len() == n
    &&& forall|i: int| 0 <= i < n ==> #[trigger] s[i] < n
    &&& forall|i: int, j: int| 0 <= i < j < n ==> s[i] != s[j]
    &&& forall|v: usize| v < n ==> #[trigger] s.contains(v)
}

/// Exchanging two positions keeps a permutation a permutation.
pub proof fn lemma_swap_keeps_permutation(s: Seq<usize>, n: nat, i: int, k: int)
    requires
        is_permutation(s, n),
        0 <= i < n,
        0 <= k < n,
    ensures
        is_permutation(swap_at(s, i, k), n),
{
    let t = swap_at(s, i, k);
    assert forall|a: int, b: int| 0 <= a < b < n implies t[a] != t[b] by {
        let sa = if a == k {
            i
        } else if a == i {
            k
        } else {
            a
        };
        let sb = if b == k {
            i
        } else if b == i {
            k
        } else {
            b
        };
        assert(t[a] == s[sa]);
        assert(t[b] == s[sb]);
        assert(sa != sb);
        if sa < sb {
            assert(s[sa] != s[sb]);
        } else {
            assert(s[sb] != s[sa]);
        }
    }
    assert forall|v: usize| v < n implies #[trigger] t.contains(v) by {
        assert(s.contains(v));
        let p = choose|p: int| 0 <= p < s.len() && s[p] == v;
        let q = if p == i {
            k
        } else if p == k {
            i
        } else {
            p
        };
        assert(t[q] == v);
    }
}

/// Every intermediate arrangement of the shuffle is a permutation.
pub proof fn lemma_fisher_yates_steps_permutation(n: nat, draws: Seq<u32>, t: nat)
    requires
        n <= usize::MAX,
        t <= shuffle_cost(n),
    ensures
        is_permutation(fisher_yates_steps(n, draws, t), n),
    decreases t,
{
    if t == 0 {
        let id = identity_seq(n);
        assert forall|v: usize| v < n implies #[trigger] id.contains(v) by {
            assert(id[v as int] == v);
        }
    } else {
        lemma_fisher_yates_steps_permutation(n, draws, (t - 1) as nat);
        let i = n - t;
        let k = (draws[t - 1] as nat) % ((i + 1) as nat);
        lemma_swap_keeps_permutation(fisher_yates_steps(n, draws, (t - 1) as nat), n, i, k as int);
    }
}

/// Whatever the draws, the Fisher–Yates shuffle is a permutation of `0..n`.
pub proof fn law_fisher_yates_is_permutation(n: nat, draws: Seq<u32>)
    requires
        n <= usize::MAX,
    ensures
        is_permutation(fisher_yates(n, draws), n),
{
    lemma_fisher_yates_steps_permutation(n, draws, shuffle_cost(n));
}

/// Every step may keep its position: when each draw selects the position
/// being settled (`draws[t − 1] ≡ n − t (mod n − t + 1)`), no element
/// moves and the shuffle is the identity. (A shuffle that only ever swaps
/// with an earlier position can never return the identity for `n ≥ 2`.)
pub proof fn law_fisher_yates_may_keep_every_position(n: nat, draws: Seq<u32>)
    requires
        forall|t: nat|
            1 <= t <= shuffle_cost(n) ==> (#[trigger] draws[t - 1] as nat) % ((n - t + 1) as nat) == (n
                - t) as nat,
    ensures
        fisher_yates(n, draws) == identity_seq(n),
{
    lemma_steps_identity(n, draws, shuffle_cost(n));
}

/// The first `t` steps leave the identity unchanged under such draws.
proof fn lemma_steps_identity(n: nat, draws: Seq<u32>, t: nat)
    requires
        t <= shuffle_cost(n),
        forall|u: nat|
            1 <= u <= shuffle_cost(n) ==> (#[trigger] draws[u - 1] as nat) % ((n - u + 1) as nat) == (n
                - u) as nat,
    ensures
        fisher_yates_steps(n, draws, t) == identity_seq(n),
    decreases t,
{
    if t > 0 {
        lemma_steps_identity(n, draws, (t - 1) as nat);
        let prev = fisher_yates_steps(n, draws, (t - 1) as nat);
        let i = n - t;
        assert((draws[t - 1] as nat) % ((n - t + 1) as nat) == (n - t) as nat);
        assert(swap_at(prev, i, i) =~= prev);
    }
}

/// A uniformly shuffled arrangement of `0..n`, drawing `n − 1` words from
/// `rng` (none when `n == 0`).
pub fn random_permutation(n: usize, rng: &mut RngState) -> (perm: Vec<usize>)
    requires
        old(rng).word_pos + shuffle_cost(n as nat) <= u128::MAX,
    ensures
        perm@ == fisher_yates(
            n as nat,
            keystream(old(rng).seed@, old(rng).stream, old(rng).word_pos as int, shuffle_cost(n as nat)),
        ),
        is_permutation(perm@, n as nat),
        final(rng).seed == old(rng).seed,
        final(rng).stream == old(rng).stream,
        final(rng).word_pos == old(rng).word_pos + shuffle_cost(n as nat),
{
    let ghost draws = keystream(old(rng).seed@, old(rng).stream, old(rng).word_pos as int, shuffle_cost(n as nat));
    let ghost start = rng.word_pos;
    let mut perm: Vec<usize> = Vec::new();
    let mut k: usize = 0;
    while k < n
        invariant
            k <= n,
            perm@ == identity_seq(n as nat).subrange(0, k as int),
        decreases n - k,
    {
        perm.push(k);
        k = k + 1;
    }
    assert(perm@ =~= fisher_yates_steps(n as nat, draws, 0));
    if n == 0 {
        proof {
            law_fisher_yates_is_permutation(0, draws);
        }
        return perm;
    }
    let mut i: usize = n - 1;
    while i > 0
        invariant
            n >= 1,
            i < n,
            perm@ == fisher_yates_steps(n as nat, draws, (n - 1 - i) as nat),
            perm@.len() == n,
            draws == keystream(old(rng).seed@, old(rng).stream, start as int, shuffle_cost(n as nat)),
            rng.seed == old(rng).seed,
            rng.stream == old(rng).stream,
            rng.word_pos == start + (n - 1 - i),
            start == old(rng).word_pos,
            start + shuffle_cost(n as nat) <= u128::MAX,
        decreases i,
    {
        let ghost t = (n - i) as nat;
        proof {
            lemma_fisher_yates_steps_permutation(n as nat, draws, t);
        }
        let w = rng.next_u32();
        assert(w == draws[t - 1]);
        let k = (w as usize) % (i + 1);
        let a = perm[i];
        let b = perm[k];
        perm.set(i, b);
        perm.set(k, a);
        assert(perm@ =~= fisher_yates_steps(n as nat, draws, t));
        i = i - 1;
    }
    proof {
        law_fisher_yates_is_permutation(n as nat, draws);
    }
    perm
}

} // verus!
