# ckks

An RNS variant of the CKKS approximate homomorphic encryption scheme, with
its integer core verified by Verus.

- `src/` is the verified library: modular polynomials and the negacyclic NTT,
  the RNS basis and its CRT reconstruction over big integers, key generation,
  encryption, decryption, multiplication, relinearization, rescaling, key
  switching (plain and hybrid), rotations, and the integer side of
  bootstrapping (mod-raise, CoeffToSlot, EvalMod checks) and of the slot
  algorithms (total sum, packed diagonals, Paterson–Stockmeyer). Contracts
  are stated over spec functions on sequences and integers, and the laws that
  relate operations (transform round trips, decryption of products and
  rotations, composition of rotations, coprimality of prime bases, ...) are
  public proof functions.
- `app/` is the floating-point side: the canonical embedding, encoding and
  decoding of complex slots, the float matrices of the bootstrapping
  transforms, and `NormalSampler`, the rounded normal distribution that
  supplies error samples to key generation and encryption.
- `tests/` exercises both.
