# embassy

Two small parts of an embedded stack, written in Rust and verified with Verus.

* Point decompression on `y^2 = x^3 - 3x + b` (P-256, P-384 and the like), with the limb and Montgomery
  arithmetic below it. The contract of `decompress::decompress_y` says which `y` comes out for every
  modulus that is 3 modulo 4, and, where the modulus is prime, that `y` is found exactly if there is a
  point with this `x` and this parity, and that it is the only one.
* The types that the QSPI and sQSPI drivers share.

No contract rests on an unproved statement: Euclid's lemma, Fermat's little theorem and the square root
for primes that are 3 modulo 4 are proved in `src/prime.rs`.

| Module | What it holds |
|---|---|
| `digits` | the number that limbs or bytes denote |
| `modular`, `prime` | congruences, primes |
| `limbs` | `from_be`, `to_be`, `lt`, `add`, `sub`, `small` |
| `montgomery` | `Field`: `new`, `add`, `sub`, `mul`, `enter`, `leave`, `pow` |
| `decompress` | `decompress_y` |
| `qspi_common` | `Frequency`, `Polarity`, `Phase`, `Mode`, `AddressMode` |

Public proof functions whose names start with `law_` state what holds across functions.

`app/` lets `defmt` format the QSPI types.

None of this runs in constant time: apply it to public points only.
