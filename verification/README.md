# cryptokit

A Verus library with two parts:

- `sc2000`, `bits`, `stream`: an SC2000-style 128-bit block cipher (round
  functions, bitslice layer, key schedule, block encryption and decryption)
  and the per-read handling of a byte stream in 16-byte blocks. The proofs
  show, among other things, that decryption undoes encryption.
- `bignum`, `signature`: an ElGamal-style signature over a fixed prime
  field. Integers are held as `BigNum` (sign and base-2^32 digits); their
  arithmetic and the random draws are done by `num-bigint` and `rand`
  behind trusted functions with stated contracts.

`app/` holds the command-line front end: reading `input.ini`, file I/O and
printing.
