# oxideav-wma

Windows Media Audio, versions 1 and 2: container, header, bit layout, entropy
codes, band layouts, and the framing around the transform.

`src/` is the library. Every function in it is verified by Verus against its
contract.

- Bits: `bits` (what bits spell), `bitio` (writer and reader), `packet_bits`
  (the packet reader of `oxideav-core`, the only trusted items).
- Codes: `huffman`, `huffman_tree`, `code_cost` (what a code costs), `coef_vlc`,
  `envelope_vlc`, `codebook`, `escape`, `paircode`, `runlevel`, `entropy_mode`.
- Wire format: `frame_bits` (blocks and frames, written and read back), `header`,
  `asf`.
- Packets of coded audio: `common`, `context`.
- Bands: `band_partition`, `exponent_bands`, `qband`, `bands`, `gain_ladder`,
  `dequant`.
- Chains: `analysis`, `encode`, `decode`, `frame`, `frame_encode`, `block`,
  `channel_decision`, `lsp_analysis`.

Numbers in floating point are held as bit patterns (`binary64`), which the
library stores and compares. What computes with them is in `app/`, around the
library: the transform, scaling, spreading of excitation, the fit of line
spectra, the drivers that run the chains, and how numbers read in messages.

`tests/` runs the library from outside.
