# world_rs

The integer core of the WORLD speech analysis and synthesis toolkit, verified
with Verus, and the floating-point pipeline built on it.

- `src/` — the verified library: FFT and scratch sizes (`common`, `fft`), the
  xorshift state of the Gaussian noise source (`matlab`), voiced-section
  bookkeeping of the DIO and Harvest contour clean-up (`dio`, `harvest`),
  rate reduction, tap indexing and input history of the polyphase resampler
  (`resample`), and the input checks of StoneMask and synthesis
  (`stonemask`, `synthesis`). Laws that span calls (gcd, lowest terms,
  voiced-section pairs, merge order, streaming history) are public proof
  functions next to the code they speak of.
- `app/` — the analysis and synthesis stages themselves (DIO, Harvest,
  StoneMask, CheapTrick, D4C, synthesis, resampling). They compute on
  floating-point samples and spectra through `rustfft` and `realfft`, and
  call the library for every integer decision listed above.
- `tests/` — tests of the library on concrete values.
