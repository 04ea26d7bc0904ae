//! Seeded random draws.
//!
//! Every random choice the library makes is a draw of distinct positions from
//! `0..length`, made with a generator that is seeded for that draw alone. A
//! draw is therefore a function of its length, its amount and its seed.
//!
//! The outside sampler is asked for draws from pools it can index with 32
//! bits. A longer pool is cut into blocks of that length, and the positions
//! are drawn block by block, each block with a seed of its own, until as many
//! are drawn as were asked for: the positions are distinct as in any draw,
//! but the first blocks are drawn from before the later ones.

use rand::seq::SliceRandom;
use rand::SeedableRng;
use vstd::prelude::*;

verus! {

/// The longest pool, or block of a pool, that the outside sampler is asked
/// to draw from.
pub const MAX_POOL: usize = 0xffff_ffff;

/// The positions that a draw of `amount` items from a pool of `length` items
/// picks with a generator seeded by `seed`, in the order in which they are
/// picked.
pub uninterp spec fn seeded_draw(length: usize, amount: usize, seed: u64) -> Seq<usize>;

/// `picks` holds `amount` distinct positions of a pool of `length` items, or
/// all of them where the pool has fewer.
pub open spec fn is_draw(picks: Seq<usize>, length: usize, amount: usize) -> bool {
    &&& picks.len() == if amount <= length { amount } else { length }
    &&& forall|i: int| 0 <= i < picks.len() ==> #[trigger] picks[i] < length
    &&& forall|i: int, j: int| 0 <= i < j < picks.len() ==> picks[i] != picks[j]
}

/// The positions `picks`, each moved up by `by`.
pub open spec fn shifted(picks: Seq<usize>, by: nat) -> Seq<usize> {
    Seq::new(picks.len(), |i: int| (picks[i] + by) as usize)
}

/// What is drawn from the first `blocks` blocks of a pool of `length`
/// positions where `want` positions are wanted: from each block in turn
/// as many as are still wanted, or all it holds, moved up to where the block
/// stands, the block with number `k` drawn with the seed `seed + k`.
pub open spec fn drawn_upto(length: usize, want: usize, seed: u64, blocks: nat) -> Seq<usize>
    decreases blocks,
{
    if blocks == 0 {
        Seq::empty()
    } else {
        let before = drawn_upto(length, want, seed, (blocks - 1) as nat);
        let start = (blocks - 1) * MAX_POOL;
        if start >= length || before.len() >= want {
            before
        } else {
            let len = if length - start <= MAX_POOL {
                length - start
            } else {
                MAX_POOL as int
            };
            let take = if want - before.len() <= len {
                want - before.len()
            } else {
                len
            };
            before + shifted(
                seeded_draw(len as usize, take as usize, seed.wrapping_add((blocks - 1) as u64)),
                start as nat,
            )
        }
    }
}

/// A number of blocks that covers a pool of `length` positions.
pub open spec fn blocks_of(length: usize) -> nat {
    (length / MAX_POOL + 1) as nat
}

/// The positions that [`draw_positions`] draws: what the outside sampler
/// picks, and from a pool too long for it what it picks block by block.
pub open spec fn drawn(length: usize, amount: usize, seed: u64) -> Seq<usize> {
    if length <= MAX_POOL {
        seeded_draw(length, amount, seed)
    } else {
        drawn_upto(length, if amount <= length {
            amount
        } else {
            length
        }, seed, blocks_of(length))
    }
}

/// `pool` counts up from zero.
pub open spec fn is_counting(pool: Seq<usize>) -> bool {
    forall|i: int| 0 <= i < pool.len() ==> #[trigger] pool[i] == i
}

/// A draw of as many items as the pool holds, or more, picks every position.
pub proof fn lemma_full_draw_covers(picks: Seq<usize>, length: usize, amount: usize)
    requires
        is_draw(picks, length, amount),
        amount >= length,
    ensures
        forall|p: usize| p < length ==> picks.contains(p),
{
    let as_int = picks.map_values(|p: usize| p as int);
    assert(as_int.no_duplicates()) by {
        assert forall|i: int, j: int|
            0 <= i < as_int.len() && 0 <= j < as_int.len() && i != j implies as_int[i]
            != as_int[j] by {
            if i < j {
                assert(picks[i] != picks[j]);
            } else {
                assert(picks[j] != picks[i]);
            }
        }
    }
    as_int.unique_seq_to_set();
    let all = vstd::set_lib::set_int_range(0, length as int);
    vstd::set_lib::lemma_int_range(0, length as int);
    assert(as_int.to_set().subset_of(all)) by {
        assert forall|x: int| as_int.to_set().contains(x) implies all.contains(x) by {
            let i = choose|i: int| 0 <= i < as_int.len() && as_int[i] == x;
            assert(picks[i] < length);
        }
    }
    vstd::set_lib::lemma_subset_equality(as_int.to_set(), all);
    assert forall|p: usize| p < length implies picks.contains(p) by {
        assert(all.contains(p as int));
        assert(as_int.to_set().contains(p as int));
        let i = choose|i: int| 0 <= i < as_int.len() && as_int[i] == p as int;
        assert(picks[i] == p);
    }
}

/// Calls `rand::rngs::StdRng::seed_from_u64` and, with that generator,
/// `rand::seq::SliceRandom::choose_multiple` on the pool.
///
/// Trusted: the items chosen are those at the positions `seeded_draw` names
/// for the pool's length, the amount and the seed, in that order; there are
/// `amount` of them, or as many as the pool holds if that is fewer; each
/// position lies within the pool and none is chosen twice. The pool is kept to
/// lengths that the sampler handles with 32-bit indices.
#[verifier::external_body]
fn choose_multiple_seeded(pool: &Vec<usize>, amount: usize, seed: u64) -> (picked: Vec<usize>)
    requires
        pool.len() <= MAX_POOL,
    ensures
        picked@.len() == seeded_draw(pool.len(), amount, seed).len(),
        picked@.len() == if amount <= pool.len() { amount } else { pool.len() },
        forall|i: int|
            0 <= i < picked@.len() ==> {
                &&& (#[trigger] seeded_draw(pool.len(), amount, seed)[i]) < pool.len()
                &&& picked@[i] == pool@[seeded_draw(pool.len(), amount, seed)[i] as int]
            },
        forall|i: int, j: int|
            0 <= i < j < picked@.len() ==> seeded_draw(pool.len(), amount, seed)[i] != seeded_draw(
                pool.len(),
                amount,
                seed,
            )[j],
{
    let mut rng = rand::rngs::StdRng::seed_from_u64(seed);
    pool.choose_multiple(&mut rng, amount).cloned().collect()
}

/// The positions `0, 1, .., length - 1` in order.
pub fn counting_order(length: usize) -> (pool: Vec<usize>)
    ensures
        pool@.len() == length,
        is_counting(pool@),
{
    let mut pool: Vec<usize> = Vec::new();
    let mut i: usize = 0;
    while i < length
        invariant
            i <= length,
            pool@.len() == i,
            is_counting(pool@),
        decreases length - i,
    {
        pool.push(i);
        i = i + 1;
    }
    pool
}

/// Draws `amount` distinct positions of one block of `length` positions, or
/// all of them where `amount` exceeds `length`.
fn draw_block(length: usize, amount: usize, seed: u64) -> (picks: Vec<usize>)
    requires
        length <= MAX_POOL,
    ensures
        picks@ == seeded_draw(length, amount, seed),
        is_draw(picks@, length, amount),
{
    let pool = counting_order(length);
    let picks = choose_multiple_seeded(&pool, amount, seed);
    proof {
        let named = seeded_draw(length, amount, seed);
        assert forall|i: int| 0 <= i < picks@.len() implies picks@[i] == named[i] by {
            assert(named[i] < pool.len());
        }
        assert(picks@ =~= named);
    }
    picks
}

/// Draws `amount` distinct positions from `0..length`, or all of them where
/// `amount` exceeds `length`, with a generator seeded by `seed`.
pub fn draw_positions(length: usize, amount: usize, seed: u64) -> (picks: Vec<usize>)
    ensures
        picks@ == drawn(length, amount, seed),
        is_draw(picks@, length, amount),
{
    if length <= MAX_POOL {
        return draw_block(length, amount, seed);
    }
    let want = if amount <= length {
        amount
    } else {
        length
    };
    let mut out: Vec<usize> = Vec::new();
    let mut start: usize = 0;
    let mut k: usize = 0;
    while start < length
        invariant
            length > MAX_POOL,
            want <= length,
            start <= length,
            start == if k * MAX_POOL <= length {
                k * MAX_POOL
            } else {
                length as int
            },
            k >= 1 ==> (k - 1) * MAX_POOL < length,
            out@ == drawn_upto(length, want, seed, k as nat),
            out@.len() == if start <= want {
                start
            } else {
                want
            },
            forall|i: int| 0 <= i < out@.len() ==> (#[trigger] out@[i]) < start,
            forall|i: int, j: int| 0 <= i < j < out@.len() ==> out@[i] != out@[j],
        decreases length - start,
    {
        let rest = length - start;
        let len = if rest <= MAX_POOL {
            rest
        } else {
            MAX_POOL
        };
        if out.len() < want {
            let still = want - out.len();
            let take = if still <= len {
                still
            } else {
                len
            };
            let picks = draw_block(len, take, seed.wrapping_add(k as u64));
            let ghost before = out@;
            let mut i: usize = 0;
            while i < picks.len()
                invariant
                    i <= picks.len(),
                    is_draw(picks@, len, take),
                    start + len <= length,
                    out@.len() == before.len() + i,
                    forall|j: int| 0 <= j < before.len() ==> out@[j] == before[j],
                    forall|j: int| 0 <= j < i ==> out@[before.len() + j] == picks@[j] + start,
                decreases picks.len() - i,
            {
                assert(picks@[i as int] < len);
                out.push(picks[i] + start);
                i = i + 1;
            }
            proof {
                assert(out@ =~= before + shifted(picks@, start as nat));
                assert forall|a: int| 0 <= a < out@.len() implies (#[trigger] out@[a]) < start
                    + len by {
                    if a >= before.len() {
                        assert(picks@[a - before.len()] < len);
                    }
                }
                assert forall|a: int, b: int| 0 <= a < b < out@.len() implies out@[a]
                    != out@[b] by {
                    if a >= before.len() {
                        assert(picks@[a - before.len()] != picks@[b - before.len()]);
                    } else if b >= before.len() {
                        assert(before[a] < start);
                    }
                }
            }
        }
        start = start + len;
        k = k + 1;
    }
    proof {
        assert(out@ == drawn_upto(length, want, seed, blocks_of(length))) by {
            if blocks_of(length) != k {
                assert(blocks_of(length) == k + 1);
                assert(k * MAX_POOL >= length);
            }
        }
    }
    out
}

/// A full shuffle of `0..length` with a generator seeded by `seed`.
pub fn shuffled_order(length: usize, seed: u64) -> (order: Vec<usize>)
    ensures
        order@ == drawn(length, length, seed),
        is_draw(order@, length, length),
{
    draw_positions(length, length, seed)
}

} // verus!
