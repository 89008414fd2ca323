//! The candidate shuffler: one random permutation of the digits 1..=9 per
//! free cell, drawn once before the search starts and never reshuffled.

use vstd::prelude::*;
use rand::seq::SliceRandom;

verus! {

#[verifier::external_type_specification]
#[verifier::external_body]
pub struct ExThreadRng(rand::rngs::ThreadRng);

/// Relies on rand::rng: a handle to the thread-local random generator.
/// Nothing is promised of the values it will yield.
#[verifier::external_body]
fn fresh_rng() -> rand::rngs::ThreadRng {
    rand::rng()
}

/// Relies on rand::seq::SliceRandom::shuffle: it permutes the slice in
/// place, so the new contents hold exactly the old elements, whatever
/// order the generator picks.
#[verifier::external_body]
fn shuffle_digits(v: &mut Vec<u8>, rng: &mut rand::rngs::ThreadRng)
    ensures
        final(v)@.to_multiset() == old(v)@.to_multiset(),
{
    v.shuffle(rng);
}

/// The digits 1 through 9 in increasing order.
pub open spec fn base_digits() -> Seq<u8> {
    seq![1u8, 2u8, 3u8, 4u8, 5u8, 6u8, 7u8, 8u8, 9u8]
}

/// A sequence holding exactly the digits 1..=9 has nine entries, each a
/// digit 1..=9.
proof fn lemma_digit_row_bounds(s: Seq<u8>)
    requires
        s.to_multiset() == base_digits().to_multiset(),
    ensures
        s.len() == 9,
        forall|i: int| 0 <= i < s.len() ==> 1 <= #[trigger] s[i] <= 9,
{
    broadcast use vstd::seq_lib::group_to_multiset_ensures;

    assert(s.len() == s.to_multiset().len());
    assert(base_digits().len() == 9);
    assert forall|i: int| 0 <= i < s.len() implies 1 <= #[trigger] s[i] <= 9 by {
        assert(s.contains(s[i]));
        assert(s.to_multiset().count(s[i]) > 0);
        assert(base_digits().contains(s[i]));
        let j = choose|j: int|
            0 <= j < base_digits().len() && base_digits()[j] == s[i];
        assert(1 <= base_digits()[j] <= 9);
    }
}

/// A sequence holding exactly the digits 1..=9 holds each digit 1..=9
/// somewhere.
pub(crate) proof fn lemma_row_has_digit(s: Seq<u8>, d: u8)
    requires
        s.to_multiset() == base_digits().to_multiset(),
        1 <= d <= 9,
    ensures
        exists|c: int| 0 <= c < 9 && s[c] == d,
{
    broadcast use vstd::seq_lib::group_to_multiset_ensures;

    assert(s.len() == s.to_multiset().len());
    assert(base_digits().len() == 9);
    assert(base_digits()[d as int - 1] == d);
    assert(base_digits().contains(d));
    assert(base_digits().to_multiset().count(d) > 0);
    assert(s.to_multiset().count(d) > 0);
    assert(s.contains(d));
    let c = choose|c: int| 0 <= c < s.len() && s[c] == d;
    assert(0 <= c < 9 && s[c] == d);
}

/// Build the candidate order table: `count` independent random permutations
/// of the digits 1..=9, one per free cell.
pub fn build_candidate_table(count: usize) -> (t: Vec<Vec<u8>>)
    ensures
        t@.len() == count,
        forall|r: int|
            0 <= r < count ==> (#[trigger] t@[r])@.to_multiset() == base_digits().to_multiset(),
        forall|r: int| 0 <= r < count ==> (#[trigger] t@[r])@.len() == 9,
        forall|r: int, i: int|
            0 <= r < count && 0 <= i < 9 ==> 1 <= #[trigger] t@[r]@[i] <= 9,
{
    let mut rng = fresh_rng();
    let mut t: Vec<Vec<u8>> = Vec::new();
    while t.len() < count
        invariant
            t@.len() <= count,
            forall|r: int|
                0 <= r < t@.len() ==> (#[trigger] t@[r])@.to_multiset()
                    == base_digits().to_multiset(),
            forall|r: int| 0 <= r < t@.len() ==> (#[trigger] t@[r])@.len() == 9,
            forall|r: int, i: int|
                0 <= r < t@.len() && 0 <= i < 9 ==> 1 <= #[trigger] t@[r]@[i] <= 9,
        decreases count - t@.len(),
    {
        let mut row: Vec<u8> = Vec::new();
        let mut d: u8 = 1;
        while d <= 9
            invariant
                1 <= d <= 10,
                row@.len() == d - 1,
                forall|i: int| 0 <= i < row@.len() ==> #[trigger] row@[i] == i + 1,
            decreases 10 - d,
        {
            row.push(d);
            d = d + 1;
        }
        assert(row@ =~= base_digits());
        shuffle_digits(&mut row, &mut rng);
        proof {
            lemma_digit_row_bounds(row@);
        }
        t.push(row);
    }
    t
}

} // verus!
