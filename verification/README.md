# rusty_cli

Checked computation kernels (sum of squares, trial-division primality, prime
counting), sequential and Rayon-parallel, and layered configuration, verified
with Verus.

- `src/arithmetic.rs`: the mathematics the kernels compute, and its lemmas.
- `src/compute.rs`: the kernels, their exact contracts, the Rayon calls behind
  trusted wrappers, and the proofs that the kernels agree with each other.
- `src/config.rs`: the settings, flag-over-file-over-default layering, and
  byte-order-mark stripping.
- `src/error.rs`: the error types.
- `app/`: the command-line program: argument parsing, JSON config files,
  progress bars and timing.
