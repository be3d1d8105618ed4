# secure_aggregation

A verified library for secure aggregation with packed secret sharing:
clients share their vectors over a prime field, every party adds up the
shares it holds, and the server reconstructs only the sum. The library is
written in Verus; `app/` holds the client program around it (sockets,
message loops, key generation). Key agreement, AES-GCM and ECDSA checks are
called from the library through small trusted wrappers.

## Layout

- `src/modpow.rs`, `src/util.rs`, `src/sums.rs`: modular exponentiation, byte
  encodings, finite sums and congruences.
- `src/ntt.rs`, `src/field_ntt.rs`, `src/fixed_ntt.rs`: the radix-2 and
  radix-3 number-theoretic transforms and their inverses.
- `src/packed.rs`, `src/packed_ss.rs`, `src/pss.rs`: packed sharing and
  reconstruction by Lagrange interpolation.
- `src/param.rs`, `src/client.rs`, `src/correction.rs`, `src/rounds.rs`,
  `src/readiness.rs`, `src/messages.rs`, `src/server.rs`: the protocol's
  parameters, rounds, checks and decisions.
- `src/linear.rs`: the transforms, sharing and interpolation are additive.
- `src/dft.rs`, `src/dft3.rs`: the transforms evaluate polynomials at the
  powers of the root, and the inverse transforms undo the forward ones.
- `src/interp.rs`, `src/fermat.rs`: Lagrange interpolation recovers a
  polynomial of low degree and does not depend on the order of the points;
  Fermat's little theorem.
- `src/recovery.rs`: modulo an odd prime with roots of unity of the right
  orders, reconstruction gives back the shared secrets, and from summed
  shares the sums of the clients' secrets, whichever large enough set of
  distinct points is used.
- `src/correction.rs`: the clients' error-correction tests, and the part of
  their completeness that holds slot by slot on an honest extended input.

## Checking

The proofs are checked by Verus; `tests/` runs the library on concrete
parameters (a 62-bit prime with roots of unity of orders 8 and 27).
