# snarkvm_dpc_core

Verified core algorithms of a decentralized private computation system,
written in Verus.

- `field`, `group`: the interfaces of a prime field and of a cyclic group of
  prime order (with point compression), each operation specified over the
  integers modulo the order.
- `small`: an instance of both interfaces (integers modulo the prime 2^31 - 1); it runs the
  algorithms in tests and offers no security.
- `encryption`: group-based encryption of sequences of group elements; the
  proof that decryption undoes encryption is `lemma_decrypt_encrypt`.
- `record`: the byte format of encrypted records (element count, compressed
  x-coordinates, selector bits); `lemma_record_roundtrip` proves that reading
  undoes writing.
- `bits`, `varint`: bit packing and variable-length integers, with their
  round-trip lemmas.
- `r1cs`: a constraint system that records assignments and constraints, and the
  benchmark circuit `a · b = c`; `lemma_product_circuit` proves that it accepts
  exactly the product as public input.
- `gadgets`: 64-bit integer gadgets built from bits.
- `verifier_input`: the inner circuit's public input as field elements.
- `ledger`: the ledger interface for implementations to provide.
