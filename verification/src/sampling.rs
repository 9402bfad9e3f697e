//! Drawing without repetition, from a seed.
//!
//! Every draw makes its own generator from a 64-bit seed. The generator is
//! `rand`'s `StdRng`, which computes its numbers from its seed alone, so a
//! draw is a function of its arguments: the same seed gives the same picks.

use rand::rngs::StdRng;
use rand::seq::{IteratorRandom, SliceRandom};
use rand::SeedableRng;
use vstd::prelude::*;

verus! {

/// What `rand`'s `SliceRandom::choose_multiple` picks from `items` with a
/// `StdRng` made from `seed`.
pub uninterp spec fn slice_picks(items: Seq<usize>, amount: nat, seed: u64) -> Seq<usize>;

/// What `rand`'s `IteratorRandom::choose_multiple` picks from `items`, taken
/// one by one, with a `StdRng` made from `seed`.
pub uninterp spec fn reservoir_picks(items: Seq<usize>, amount: nat, seed: u64) -> Seq<usize>;

/// The smaller of two counts.
pub open spec fn at_most_all(amount: nat, length: nat) -> nat {
    if amount <= length {
        amount
    } else {
        length
    }
}

/// The seed of one draw: draws differ by the node they are made for and by
/// their slot at that node.
pub open spec fn draw_seed(seed: u64, node: nat, slot: nat) -> u64 {
    ((seed + node * 0x9E37_79B9 + slot) % 0x1_0000_0000_0000_0000) as u64
}

/// The seed of the draw in slot `slot` at node `node`.
pub fn seed_for(seed: u64, node: usize, slot: usize) -> (s: u64)
    ensures
        s == draw_seed(seed, node as nat, slot as nat),
{
    let spread: u128 = 0x9E37_79B9;
    assert(node as u128 * spread <= 0xFFFF_FFFF_FFFF_FFFF * 0x9E37_79B9) by (nonlinear_arith)
        requires
            node as u128 <= 0xFFFF_FFFF_FFFF_FFFF,
            spread == 0x9E37_79B9,
    ;
    let wide: u128 = seed as u128 + node as u128 * spread + slot as u128;
    (wide % 0x1_0000_0000_0000_0000) as u64
}

/// Calls `rand`'s `SliceRandom::choose_multiple` on `items`, with a `StdRng`
/// that `SeedableRng::seed_from_u64` makes from `seed`, and copies the picks
/// out.
///
/// Claimed of it: the picks are a function of the arguments; there are
/// `amount` of them, or as many as there are items if that is fewer; each is
/// an item; and no position of `items` is picked twice, so that items that
/// are all different give picks that are all different.
#[verifier::external_body]
pub(crate) fn choose_from_slice(items: &Vec<usize>, amount: usize, seed: u64) -> (picks: Vec<usize>)
    ensures
        picks@ == slice_picks(items@, amount as nat, seed),
        picks@.len() == at_most_all(amount as nat, items@.len()),
        forall|i: int| 0 <= i < picks@.len() ==> items@.contains(#[trigger] picks@[i]),
        items@.no_duplicates() ==> picks@.no_duplicates(),
{
    let mut rng = StdRng::seed_from_u64(seed);
    items.choose_multiple(&mut rng, amount).copied().collect()
}

/// Calls `rand`'s `IteratorRandom::choose_multiple` on the items of `items`,
/// taken one by one, with a `StdRng` that `SeedableRng::seed_from_u64` makes
/// from `seed`.
///
/// Claimed of it: the picks are a function of the arguments; there are
/// `amount` of them; each is an item; and no position of `items` is picked
/// twice, so that items that are all different give picks that are all
/// different. No more picks are asked for than there are items, so that the
/// buffer of the picks is no larger than `items`.
#[verifier::external_body]
pub(crate) fn choose_from_iter(items: &Vec<usize>, amount: usize, seed: u64) -> (picks: Vec<usize>)
    requires
        amount <= items@.len(),
    ensures
        picks@ == reservoir_picks(items@, amount as nat, seed),
        picks@.len() == amount,
        forall|i: int| 0 <= i < picks@.len() ==> items@.contains(#[trigger] picks@[i]),
        items@.no_duplicates() ==> picks@.no_duplicates(),
{
    let mut rng = StdRng::seed_from_u64(seed);
    items.iter().copied().choose_multiple(&mut rng, amount)
}

} // verus!
