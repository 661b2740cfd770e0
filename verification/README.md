# ckks_ntt

Number theoretic transforms over `Z_q` with fault injection and software
mitigations (butterfly consistency checks, stage checksums, recomputation), and a
CKKS-style negacyclic product pipeline built on them. The library in `src/` is
verified with Verus; `app/` is the command-line program around it.

## Layout

- `src/modarith.rs`, `src/params.rs`: modular arithmetic, the search for an NTT prime
  and a root of order `2N`.
- `src/fault.rs`, `src/mitigation.rs`: fault descriptions, mitigation options and
  counters.
- `src/ntt/`: the backends (radix-2, decimation in frequency, Stockham, fused radix-4,
  blocked four-step, direct) with their exact outputs, traces and counters
  (`spec.rs` holds the stage-by-stage model), the mitigated radix-2 transform, and the
  proofs about them:
  - `dft.rs`, `dif_transform.rs`: the butterfly networks compute the discrete Fourier
    transform;
  - `roots.rs`, `fermat.rs`, `inverse.rs`: `ψ^N = -1`, Fermat's little theorem for
    powers of two from the base-2 round of the primality test, orthogonality of the
    roots of unity (in any `Z_q`), and the inverse transform;
  - `laws.rs`: proofs relating the backends, the mitigations and the direct
    transform;
  - `transient.rs`: one transient fault inside one butterfly is detected once and
    repaired by one recomputation.
- `src/validation.rs`, `src/convolution.rs`: the schoolbook negacyclic product, the
  product through the transforms, and the convolution theorems that make them equal.
- `src/ckks.rs`, `src/demo.rs`: the product pipeline with traces and counters, and the
  verdicts of the demo validation.
- `src/timing.rs`: the clock, behind trusted wrappers of `std::time::Instant`.

Parameter selection establishes the root facts (`RingParams::has_roots`: `q = 1 (mod 2N)`,
`ψ^(2N) = 1`, `ψ^N = -1`) and a passed primality test. The laws that the transforms
compute the discrete Fourier transform need only the root facts; the laws that the
backward transform undoes the forward one also use the passed test, whose base-2 round
gives `2^(q-1) = 1`. No law assumes that `q` is prime.
