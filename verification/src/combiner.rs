//! What the transform that combines the banners works on.

use vstd::prelude::*;

verus! {

/// Why a set of banners and a budget cannot be combined.
#[derive(Debug, Clone, Copy, PartialEq, Eq, Structural)]
pub enum Rejection {
    /// There is no banner.
    NoBanners,
    /// Some banner's subrate is zero or more than one.
    Subrate,
    /// Some banner's pulls, with its bonus, do not cover the one pull that every
    /// other banner must get.
    Underflow,
    /// A target count, the length of the convolution, or the number of its entries
    /// that count, is too large for the machine word.
    Overflow,
}

/// What the transform works on: one distribution for each banner, each padded with
/// zeros to the length of the convolution.
pub struct Prepared {
    /// The padded distributions, in the order of the banners.
    pub pdists: Vec<Vec<u64>>,
    /// The length of each padded distribution, and of the convolution.
    pub conv_size: usize,
    /// The number of leading entries of the convolution whose sum is the answer.
    pub window: usize,
}

/// The entry at `k` of `dist` padded with zeros.
pub open spec fn padded_entry(dist: Seq<u64>, k: int) -> u64 {
    if 0 <= k < dist.len() {
        dist[k]
    } else {
        0
    }
}

/// Pads `dist` with zeros to the length `len`.
pub fn padded(dist: Vec<u64>, len: usize) -> (out: Vec<u64>)
    requires
        dist.len() <= len,
    ensures
        out.len() == len,
        forall|k: int| 0 <= k < len ==> #[trigger] out[k] == padded_entry(dist@, k),
{
    let ghost given = dist@;
    let mut out = dist;
    while out.len() < len
        invariant
            given.len() <= out.len() <= len,
            forall|k: int| 0 <= k < out.len() ==> #[trigger] out[k] == padded_entry(given, k),
        decreases len - out.len(),
    {
        out.push(0);
    }
    out
}

/// The number of complex coefficients that the transform of `conv_size` real samples
/// has.
pub fn spectrum_len(conv_size: usize) -> (n: usize)
    ensures
        n == conv_size / 2 + 1,
{
    conv_size / 2 + 1
}

} // verus!
