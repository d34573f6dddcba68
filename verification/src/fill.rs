//! The fill rule: from a sampled neighborhood, decide whether and to what
//! color a transparent pixel is set.

use vstd::prelude::*;
use crate::image::{Color, Color16};

verus! {

/// A neighborhood slot that is present and fully opaque.
pub open spec fn slot_opaque(s: Option<Color16>) -> bool {
    s is Some && s->Some_0.a == 255
}

/// Every present slot of the neighborhood holds channels widened from
/// 8-bit values, so each channel is at most 255.
pub open spec fn wf_slots(kern: Seq<Option<Color16>>) -> bool {
    forall|i: int| 0 <= i < kern.len() && (#[trigger] kern[i]) is Some ==> {
        &&& kern[i]->Some_0.r <= 255
        &&& kern[i]->Some_0.g <= 255
        &&& kern[i]->Some_0.b <= 255
        &&& kern[i]->Some_0.a <= 255
    }
}

/// Count of opaque neighbors among the slots with index below `n`,
/// excluding the center slot (index 4).
pub open spec fn hits_upto(kern: Seq<Option<Color16>>, n: int) -> int
    decreases n,
{
    if n <= 0 {
        0
    } else {
        hits_upto(kern, n - 1) + if n - 1 != 4 && slot_opaque(kern[n - 1]) {
            1int
        } else {
            0int
        }
    }
}

/// Sum of the red channels of the opaque neighbors with index below `n`,
/// excluding the center slot.
pub open spec fn sum_r_upto(kern: Seq<Option<Color16>>, n: int) -> int
    decreases n,
{
    if n <= 0 {
        0
    } else {
        sum_r_upto(kern, n - 1) + if n - 1 != 4 && slot_opaque(kern[n - 1]) {
            kern[n - 1]->Some_0.r as int
        } else {
            0int
        }
    }
}

/// Sum of the green channels of the opaque neighbors with index below `n`,
/// excluding the center slot.
pub open spec fn sum_g_upto(kern: Seq<Option<Color16>>, n: int) -> int
    decreases n,
{
    if n <= 0 {
        0
    } else {
        sum_g_upto(kern, n - 1) + if n - 1 != 4 && slot_opaque(kern[n - 1]) {
            kern[n - 1]->Some_0.g as int
        } else {
            0int
        }
    }
}

/// Sum of the blue channels of the opaque neighbors with index below `n`,
/// excluding the center slot.
pub open spec fn sum_b_upto(kern: Seq<Option<Color16>>, n: int) -> int
    decreases n,
{
    if n <= 0 {
        0
    } else {
        sum_b_upto(kern, n - 1) + if n - 1 != 4 && slot_opaque(kern[n - 1]) {
            kern[n - 1]->Some_0.b as int
        } else {
            0int
        }
    }
}

/// Count of opaque neighbors in the whole neighborhood.
pub open spec fn opaque_hits(kern: Seq<Option<Color16>>) -> int {
    hits_upto(kern, 9)
}

/// The fill decision: absent when fewer than 3 of the up to 8 neighbors are
/// opaque; otherwise a fully opaque color whose channels are the
/// integer-truncating averages of the opaque neighbors' channels.
pub open spec fn spec_decide(kern: Seq<Option<Color16>>) -> Option<Color> {
    let hits = opaque_hits(kern);
    if hits < 3 {
        None
    } else {
        Some(Color {
            r: (sum_r_upto(kern, 9) / hits) as u8,
            g: (sum_g_upto(kern, 9) / hits) as u8,
            b: (sum_b_upto(kern, 9) / hits) as u8,
            a: 255,
        })
    }
}

/// The running count and sums stay within the bounds that make `u16`
/// accumulators safe: at most one hit per slot, at most 255 per channel
/// per hit.
pub proof fn lemma_sums_bounded(kern: Seq<Option<Color16>>, n: int)
    requires
        wf_slots(kern),
        n <= kern.len(),
    ensures
        0 <= hits_upto(kern, n) <= if n <= 0 { 0int } else { n },
        0 <= sum_r_upto(kern, n) <= 255 * hits_upto(kern, n),
        0 <= sum_g_upto(kern, n) <= 255 * hits_upto(kern, n),
        0 <= sum_b_upto(kern, n) <= 255 * hits_upto(kern, n),
    decreases n,
{
    if n > 0 {
        lemma_sums_bounded(kern, n - 1);
    }
}

/// The decision fills exactly at the threshold: two opaque neighbors are
/// never enough, three always are, and a filled pixel is fully opaque.
pub proof fn lemma_fill_threshold(kern: Seq<Option<Color16>>)
    ensures
        opaque_hits(kern) < 3 ==> spec_decide(kern) is None,
        opaque_hits(kern) >= 3 ==> spec_decide(kern) is Some && spec_decide(kern)->Some_0.a
            == 255,
        opaque_hits(kern) == 2 ==> spec_decide(kern) is None,
        opaque_hits(kern) == 3 ==> spec_decide(kern) is Some,
{
}

/// Applies the fill rule to a sampled neighborhood: iterates the eight
/// neighbor slots in index order, summing the channels of the opaque ones,
/// and returns the averaged fully opaque color once at least three opaque
/// neighbors were seen.
pub fn decide_fill(kern: &Vec<Option<Color16>>) -> (r: Option<Color>)
    requires
        kern@.len() == 9,
        wf_slots(kern@),
    ensures
        r == spec_decide(kern@),
{
    let mut hits: u16 = 0;
    let mut r: u16 = 0;
    let mut g: u16 = 0;
    let mut b: u16 = 0;
    let mut idx: usize = 0;
    while idx < 9
        invariant
            kern@.len() == 9,
            wf_slots(kern@),
            0 <= idx <= 9,
            hits == hits_upto(kern@, idx as int),
            r == sum_r_upto(kern@, idx as int),
            g == sum_g_upto(kern@, idx as int),
            b == sum_b_upto(kern@, idx as int),
        decreases 9 - idx,
    {
        proof {
            lemma_sums_bounded(kern@, idx as int);
        }
        if idx != 4 {
            match &kern[idx] {
                Some(c) => {
                    if c.a == 255 {
                        r = r + c.r;
                        g = g + c.g;
                        b = b + c.b;
                        hits = hits + 1;
                    }
                },
                None => {},
            }
        }
        idx = idx + 1;
    }
    proof {
        lemma_sums_bounded(kern@, 9);
    }
    if hits < 3 {
        None
    } else {
        Some(Color { r: (r / hits) as u8, g: (g / hits) as u8, b: (b / hits) as u8, a: 255 })
    }
}

} // verus!
