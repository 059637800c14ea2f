# ternary_codes

Error-correcting codes for ternary data in {-1, 0, +1}, verified with Verus:
GF(3) arithmetic on symbols, a ternary Hamming code with syndrome decoding,
a repetition code decoded by majority vote, single-symbol parity, and code
distances (Hamming, Lee, weight, minimum distance of a codebook).

Layout of `src/`:

- `ternary.rs`: the `Ternary` symbol, its GF(3) model and the field laws.
- `check_matrix.rs`: the check matrix of the ternary Hamming code (every
  non-zero vector of GF(3)^r up to sign, unit vectors last) and its properties.
- `hamming.rs`: `TernaryHamming`: systematic encoding, syndrome decoding,
  minimum distance 3 and perfectness.
- `repetition.rs`: `RepetitionCode`, `majority_vote`, and the round-trip and
  error-correction laws of the repetition code.
- `parity.rs`: parity symbol, encoding and verification, single-error detection.
- `distance.rs`: distances, weight, minimum distance, error capacities and
  the metric laws.
- `error.rs`: `DecodeError`.

Each public function states its result exactly in its `ensures` over the
spec functions of its module; the laws are public proof functions.
