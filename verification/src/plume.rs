//! Where in the churn pattern a craft's plume starts: a hash of the craft, so that two craft
//! burning side by side do not flicker in step.

use vstd::prelude::*;
use vstd::wrapping::u64_specs::wrapping_mul;

verus! {

/// The key a craft's plume is hashed from: its ship number, or, for this ship, which has none,
/// the one key no number can collide with.
pub open spec fn plume_key(of: Option<u64>) -> u64 {
    match of {
        Some(n) => n,
        None => u64::MAX,
    }
}

/// The murmur3 finaliser, after the key is salted.
pub open spec fn plume_hash(key: u64) -> u64 {
    let h0 = key ^ 0x2545_f491_4f6c_dd1du64;
    let h1 = wrapping_mul(h0 ^ (h0 >> 33u64), 0xff51_afd7_ed55_8ccdu64);
    let h2 = wrapping_mul(h1 ^ (h1 >> 33u64), 0xc4ce_b9fe_1a85_ec53u64);
    h2 ^ (h2 >> 33u64)
}

/// The plume's starting phase as a share of the pattern, in 24-bit steps: the share is
/// `cell / 2^24`, so a phase of `cell / 2^24` of the pattern's period.
pub fn seed_cell(of: Option<u64>) -> (cell: u64)
    ensures
        cell == plume_hash(plume_key(of)) >> 40u64,
        cell < 0x100_0000,
{
    let key: u64 = match of {
        None => u64::MAX,
        Some(n) => n,
    };
    let mut h: u64 = key ^ 0x2545_f491_4f6c_dd1d;
    h = (h ^ (h >> 33)).wrapping_mul(0xff51_afd7_ed55_8ccd);
    h = (h ^ (h >> 33)).wrapping_mul(0xc4ce_b9fe_1a85_ec53);
    h = h ^ (h >> 33);
    assert(h >> 40u64 < 0x100_0000u64) by (bit_vector);
    h >> 40
}

} // verus!
