//! Test data: text of random 16-bit integers, in the form the sorter reads.

use vstd::prelude::*;
use crate::chunk_text::{render_chunk, render_values};

verus! {

/// Relies on `rand::random::<i16>`, a value drawn from the thread-local
/// generator: nothing is known of it beyond its type.
#[verifier::external_body]
fn random_i16() -> (r: i16) {
    rand::random::<i16>()
}

/// The text of `count` random 16-bit integers separated by single spaces.
pub fn random_block(count: usize) -> (r: Vec<u8>)
    ensures
        exists|xs: Seq<i64>|
            {
                &&& xs.len() == count
                &&& forall|k: int| 0 <= k < xs.len() ==> i16::MIN <= #[trigger] xs[k] <= i16::MAX
                &&& r@ == render_values(xs)
            },
{
    let mut values: Vec<i64> = Vec::new();
    let mut k: usize = 0;
    while k < count
        invariant
            k <= count,
            values@.len() == k,
            forall|j: int| 0 <= j < values@.len() ==> i16::MIN <= #[trigger] values@[j] <= i16::MAX,
        decreases count - k,
    {
        let v = random_i16();
        values.push(v as i64);
        k = k + 1;
    }
    let r = render_chunk(&values);
    assert(r@ == render_values(values@));
    r
}

} // verus!
