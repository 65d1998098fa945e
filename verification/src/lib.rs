//! A JSON codec: a tokenizer, a decoder that turns the tokens into the
//! steps by which a value is rebuilt, and an encoder that writes a value
//! part by part.
//!
//! The codec holds no tree of values. The code of a value's own type asks
//! the decoder for one step after the other ([`de`]), or calls the encoder
//! for each part of the value ([`ser`]). Which token a text holds at a
//! position is stated in [`grammar`]; [`tokenizer`] reads it.
//! [`round_trip`] states that what is written is read back, and
//! [`prefix`] that whitespace and a byte-order mark before a text change
//! nothing.

use vstd::prelude::*;

pub mod de;
pub mod error;
pub mod grammar;
pub mod number;
pub mod prefix;
pub mod round_trip;
pub mod ser;
pub mod text;
pub mod token;
pub mod tokenizer;

verus! {

/// The list that the first `pairs` pairs of `nums` stand for. A pair is a
/// count and a value; it stands for the value, taken as often as the count
/// says, and for nothing where the count is not positive.
pub open spec fn run_length_expand(nums: Seq<i32>, pairs: nat) -> Seq<i32>
    decreases pairs,
{
    if pairs == 0 {
        Seq::empty()
    } else {
        let k = (pairs - 1) as int;
        run_length_expand(nums, (pairs - 1) as nat) + Seq::new(
            if nums[2 * k] > 0 {
                nums[2 * k] as nat
            } else {
                0
            },
            |i: int| nums[2 * k + 1],
        )
    }
}

/// Expands a run-length encoded list: `nums` holds pairs of a count and a
/// value, one after the other; a last number without a partner is left
/// out.
pub fn decompress_rl_elist(nums: Vec<i32>) -> (ans: Vec<i32>)
    ensures
        ans@ == run_length_expand(nums@, (nums@.len() / 2) as nat),
{
    let mut ans: Vec<i32> = Vec::new();
    let mut i: usize = 0;
    let pairs: usize = nums.len() / 2;
    while i < pairs
        invariant
            pairs == nums@.len() / 2,
            nums@.len() <= usize::MAX,
            i <= pairs,
            ans@ == run_length_expand(nums@, i as nat),
        decreases pairs - i,
    {
        assert(2 * i + 1 < nums@.len());
        let num: i32 = nums[2 * i + 1];
        let count: i32 = nums[2 * i];
        let mut cnt: i32 = count;
        let ghost before = ans@;
        while cnt > 0
            invariant
                cnt <= count,
                count > 0 ==> cnt >= 0,
                ans@ == before + Seq::new(
                    if count > 0 {
                        (count - cnt) as nat
                    } else {
                        0
                    },
                    |j: int| num,
                ),
            decreases cnt,
        {
            ans.push(num);
            cnt -= 1;
            assert(ans@ =~= before + Seq::new((count - cnt) as nat, |j: int| num));
        }
        assert(ans@ =~= run_length_expand(nums@, (i + 1) as nat));
        i += 1;
    }
    ans
}

} // verus!
