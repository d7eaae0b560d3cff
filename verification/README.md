# syndrome

Forward error correction with machine-checked contracts: Hamming, Golay, BCH,
Reed-Solomon (CCSDS), CRC, polar and quasi-cyclic LDPC codes, the Bluetooth
packet codes, HARQ combining, and channels for simulation.

- `src/` is the library. Every function states what it returns, and Verus
  proves it. The modules `bch_laws`, `rs_laws` and `ldpc_laws`, and the public
  lemmas beside each code, state what the codes promise as a whole: which
  errors are corrected, which are detected, and what decoding gives back.
- `tests/` runs the library on concrete values.
- `app/` is a command-line program: demonstrations, error-rate simulations,
  timings, and a C interface to the LDPC codec.

Likelihoods are the bit patterns of single-precision numbers. Comparing,
negating and taking signs are done on the patterns; addition is passed in by
the caller.
