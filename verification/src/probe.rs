//! What is known of the machine: its processor, memory, graphics, storage and
//! environment, from the texts that the operating system and its tools give.

pub mod cpu;
pub mod env;
pub mod gpu;
pub mod laws;
pub mod memory;
pub mod storage;

use vstd::prelude::*;
use crate::double::{fixed_decimal, fixed_text, nearest, nearest_shifted, pow2, round_to_double, rounded};

verus! {

/// A count of bytes as it is shown: in GiB with two decimals from one GiB on,
/// in whole MiB below. Binary units, because that is what memory is sold in.
pub open spec fn human_text(bytes: nat) -> Seq<char> {
    let b = rounded(bytes);
    if b >= 1_073_741_824 {
        fixed_text(nearest(b * 100, pow2(30)), 2) + " GiB"@
    } else {
        fixed_text(nearest(b, pow2(20)), 0) + " MiB"@
    }
}

/// Format bytes as GiB/MiB.
pub fn human(bytes: u64) -> (s: String)
    ensures
        s@ == human_text(bytes as nat),
{
    let b: u128 = round_to_double(bytes);
    if b >= 1_073_741_824 {
        let mut s = fixed_decimal(nearest_shifted(b * 100, 30), 2);
        s.append(" GiB");
        s
    } else {
        let mut s = fixed_decimal(nearest_shifted(b, 20), 0);
        s.append(" MiB");
        s
    }
}

} // verus!
