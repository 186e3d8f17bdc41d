//! Frequency tables that the band partitions start from.
use vstd::prelude::*;

verus! {

/// Upper edges of the critical bands, in hertz.
pub const CRITICAL_BAND_FREQS_HZ: [u16; 25] = [
    100, 200, 300, 400, 510, 630, 770, 920, 1080, 1270, 1480, 1720, 2000, 2320, 2700, 3150, 3700,
    4400, 5300, 6400, 7700, 9500, 12000, 15500, 24500,
];

/// Edges of the octave bands, in hertz.
pub const SUBBAND_FREQS_HZ: [u16; 11] = [
    0, 50, 100, 200, 400, 800, 1600, 3200, 6400, 12800, 24100,
];

/// The critical band edges ascend and stay within the last one.
pub proof fn lemma_critical_bands()
    ensures
        forall|i: int| 0 <= i < 25 ==> 100 <= #[trigger] CRITICAL_BAND_FREQS_HZ@[i] <= 24500,
        forall|i: int, j: int|
            0 <= i < j < 25 ==> #[trigger] CRITICAL_BAND_FREQS_HZ@[i]
                < #[trigger] CRITICAL_BAND_FREQS_HZ@[j],
{
}

/// The octave band edges ascend and stay within the last one.
pub proof fn lemma_subbands()
    ensures
        forall|i: int| 0 <= i < 11 ==> #[trigger] SUBBAND_FREQS_HZ@[i] <= 24100,
        forall|i: int, j: int|
            0 <= i < j < 11 ==> #[trigger] SUBBAND_FREQS_HZ@[i] < #[trigger] SUBBAND_FREQS_HZ@[j],
{
}

/// Critical bands never get narrower: each is at least as wide as the one below it.
pub proof fn critical_bands_widen(k: int)
    requires
        0 < k < 24,
    ensures
        CRITICAL_BAND_FREQS_HZ@[k] - CRITICAL_BAND_FREQS_HZ@[k - 1] <= CRITICAL_BAND_FREQS_HZ@[k
            + 1] - CRITICAL_BAND_FREQS_HZ@[k],
{
}

/// Octave band edges double from 50 Hz up to 12.8 kHz; the first is zero.
pub proof fn octave_edges_double(k: int)
    requires
        1 <= k < 9,
    ensures
        SUBBAND_FREQS_HZ@[0] == 0,
        SUBBAND_FREQS_HZ@[1] == 50,
        SUBBAND_FREQS_HZ@[k + 1] == 2 * SUBBAND_FREQS_HZ@[k],
{
}

} // verus!
