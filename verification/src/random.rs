//! Seeded random draws.

use rand::distributions::{Bernoulli, Distribution};
use rand::seq::index::sample;
use rand::{Rng, SeedableRng};
use rand_chacha::ChaCha8Rng;
use vstd::prelude::*;

verus! {

/// rand_chacha's `ChaCha8Rng`, a generator whose state is a value like any other.
#[verifier::external_type_specification]
#[verifier::external_body]
pub struct ExChaCha8Rng(ChaCha8Rng);

/// rand's `Bernoulli`, a coin with a fixed chance of heads.
#[verifier::external_type_specification]
#[verifier::external_body]
pub struct ExBernoulli(Bernoulli);

/// The generator that a seed gives.
pub uninterp spec fn seeded(seed: u64) -> ChaCha8Rng;

/// What a flip of the coin shows, and the generator after it.
pub uninterp spec fn coin(rng: ChaCha8Rng, chance: Bernoulli) -> (bool, ChaCha8Rng);

/// The 32-bit number below the bound that is drawn, and the generator after it.
pub uninterp spec fn below(rng: ChaCha8Rng, bound: u32) -> (u32, ChaCha8Rng);

/// The number below the bound that is drawn on a machine whose words have
/// `width` bits, and the generator after it.
pub uninterp spec fn index_below(rng: ChaCha8Rng, bound: usize, width: u32) -> (usize, ChaCha8Rng);

/// The numbers below `length` that are drawn, `amount` of them.
pub uninterp spec fn index_sample(rng: ChaCha8Rng, length: usize, amount: usize) -> Seq<usize>;

/// Seeds a generator: `ChaCha8Rng::seed_from_u64`. Claimed is that one seed
/// always gives the same generator, which gets a name.
#[verifier::external_body]
pub(crate) fn seed_rng(seed: u64) -> (rng: ChaCha8Rng)
    ensures
        rng == seeded(seed),
{
    ChaCha8Rng::seed_from_u64(seed)
}

/// Flips a coin: `Bernoulli`'s `sample`, which `Rng::gen_bool` calls too.
/// Claimed is that what it shows, and the generator after it, depend on the
/// generator before it and on the coin alone.
#[verifier::external_body]
pub(crate) fn flip(rng: &mut ChaCha8Rng, chance: &Bernoulli) -> (heads: bool)
    ensures
        (heads, *final(rng)) == coin(*old(rng), *chance),
{
    chance.sample(rng)
}

/// Draws a 32-bit number below a bound: `Rng::gen_range` on `0..bound`, which
/// panics on an empty range. Claimed is that the number is below the bound, and
/// that it and the generator after it depend on the generator before it and on
/// the bound alone.
#[verifier::external_body]
pub(crate) fn draw_below(rng: &mut ChaCha8Rng, bound: u32) -> (value: u32)
    requires
        bound > 0,
    ensures
        value < bound,
        (value, *final(rng)) == below(*old(rng), bound),
{
    rng.gen_range(0..bound)
}

/// Draws a number below a bound: `Rng::gen_range` on `0..bound`, which panics on
/// an empty range and draws as many bits as a machine word has. Claimed is that
/// the number is below the bound, and that it and the generator after it depend
/// on the generator before it, on the bound and on the width of a word alone.
#[verifier::external_body]
pub(crate) fn draw_index(rng: &mut ChaCha8Rng, bound: usize) -> (value: usize)
    requires
        bound > 0,
    ensures
        value < bound,
        (value, *final(rng)) == index_below(*old(rng), bound, usize::BITS),
{
    rng.gen_range(0..bound)
}

/// Draws `amount` numbers below `length`, none twice: `rand::seq::index::sample`
/// and its `into_vec`. It panics where more are asked for than there are, and with
/// debug assertions also where all of more than `2^32 - 1` numbers are.
/// Claimed is how many come, that each is below `length` and none comes twice,
/// and that they depend on the generator and the two numbers alone. What
/// becomes of the generator is not said.
#[verifier::external_body]
pub(crate) fn draw_indices(rng: &mut ChaCha8Rng, length: usize, amount: usize) -> (indices: Vec<
    usize,
>)
    requires
        amount <= length,
        length <= u32::MAX || amount < length,
    ensures
        indices@.len() == amount,
        indices@.no_duplicates(),
        forall|i: int| 0 <= i < indices@.len() ==> indices@[i] < length,
        indices@ == index_sample(*old(rng), length, amount),
{
    sample(rng, length, amount).into_vec()
}

/// Samples nodes without replacement: as many as asked for, or all there are.
/// The same seed gives the same sample.
pub fn sample_sources(n: usize, count: usize, seed: u64) -> (sources: Vec<usize>)
    requires
        n <= u32::MAX || count < n,
    ensures
        sources@.len() == if count <= n {
            count
        } else {
            n
        },
        sources@.no_duplicates(),
        forall|i: int| 0 <= i < sources@.len() ==> sources@[i] < n,
        sources@ == index_sample(
            seeded(seed),
            n,
            if count <= n {
                count
            } else {
                n
            },
        ),
        count >= n ==> forall|node: usize| node < n ==> #[trigger] sources@.contains(node),
{
    let actual: usize = if count <= n {
        count
    } else {
        n
    };
    let mut rng = seed_rng(seed);
    let sources = draw_indices(&mut rng, n, actual);
    proof {
        if count >= n {
            assert forall|node: usize| node < n implies #[trigger] sources@.contains(node) by {
                if !sources@.contains(node) {
                    lemma_too_many(sources@, node, n as nat);
                }
            }
        }
    }
    sources
}

/// Numbers below `n`, none twice and one of them missing, are fewer than `n`.
proof fn lemma_too_many(numbers: Seq<usize>, missing: usize, n: nat)
    requires
        numbers.no_duplicates(),
        forall|i: int| 0 <= i < numbers.len() ==> numbers[i] < n,
        missing < n,
        !numbers.contains(missing),
    ensures
        numbers.len() < n,
{
    let ints = numbers.map_values(|x: usize| x as int).push(missing as int);
    assert(ints.no_duplicates()) by {
        assert forall|i: int, j: int| 0 <= i < ints.len() && 0 <= j < ints.len() && i
            != j implies ints[i] != ints[j] by {
            if i < numbers.len() && j < numbers.len() {
                assert(numbers[i] != numbers[j]);
            } else if i < numbers.len() {
                assert(numbers.contains(numbers[i]));
            } else {
                assert(numbers.contains(numbers[j]));
            }
        }
    }
    ints.unique_seq_to_set();
    let all = vstd::set_lib::set_int_range(0, n as int);
    vstd::set_lib::lemma_int_range(0, n as int);
    assert forall|x: int| #[trigger] ints.to_set().contains(x) implies all.contains(x) by {
        let i = choose|i: int| 0 <= i < ints.len() && ints[i] == x;
        if i < numbers.len() {
            assert(numbers[i] < n);
        }
    }
    vstd::set_lib::lemma_len_subset(ints.to_set(), all);
}

/// The finalizer of the SplitMix64 generator: spreads neighboring seeds apart.
pub open spec fn mixed(x: u64) -> u64 {
    let a = x.wrapping_add(0x9e37_79b9_7f4a_7c15);
    let b = (a ^ (a >> 30)).wrapping_mul(0xbf58_476d_1ce4_e5b9);
    let c = (b ^ (b >> 27)).wrapping_mul(0x94d0_49bb_1331_11eb);
    c ^ (c >> 31)
}

/// The finalizer of the SplitMix64 generator.
pub fn splitmix64(x: u64) -> (z: u64)
    ensures
        z == mixed(x),
{
    let a: u64 = x.wrapping_add(0x9e37_79b9_7f4a_7c15);
    let b: u64 = (a ^ (a >> 30)).wrapping_mul(0xbf58_476d_1ce4_e5b9);
    let c: u64 = (b ^ (b >> 27)).wrapping_mul(0x94d0_49bb_1331_11eb);
    c ^ (c >> 31)
}

/// The finalizer in numbers modulo `2^64`: it adds a constant, then twice folds the high
/// bits onto the low ones and multiplies by a constant, and folds once more.
pub proof fn lemma_mixed(x: u64)
    ensures
        ({
            let modulus = 0x1_0000_0000_0000_0000int;
            let a = ((x + 0x9e37_79b9_7f4a_7c15int) % modulus) as u64;
            let b = (((a ^ (a >> 30)) * 0xbf58_476d_1ce4_e5b9int) % modulus) as u64;
            let c = (((b ^ (b >> 27)) * 0x94d0_49bb_1331_11ebint) % modulus) as u64;
            mixed(x) == c ^ (c >> 31)
        }),
{
}

} // verus!
