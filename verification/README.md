# velox_mpc

Verified core of an asynchronous secure multi-party computation engine over the
Mersenne-61 field. `n` parties, `t` of them faulty, share secrets, multiply
them in batches and evaluate dense neural networks on them.

- `src/` is the library. Verus proves every function's contract. Of what the
  clock shows nothing is claimed: the profiler's functions that read it say what
  holds for every reading, and beside each stands one that takes the reading.
  - `field`, `prime`, `prime_cert`: the field and the primality of its modulus.
  - `polynomial`, `poly`: the theory of polynomials and interpolation, and the
    executable matrices and polynomials.
  - `types`, `wire`: serialized elements, digests and message layouts.
  - `acss`: the dealer, a party's state and the host side of the device dealer.
  - `mpc`: random sharings, random bits, multiplication and inference.
  - `gpu_mem`, `gpu_ffi`, `gpu_aes_ffi`: sizes and layouts of device operands.
  - `profiler`: spans, marks and reports.
- `tests/` runs the library on concrete values, including whole rounds of all
  parties.
- `app/` is the ordinary Rust around it: files, environment, logging, network
  services and the CUDA runtime.

Contracts speak of integers modulo `2^61 - 1` and of sequences of them. The
calls into `lambdaworks-math` (polynomials) and `bincode` (message layouts) and
the clock are trusted; each stands behind one small item with a doc comment
that says what is claimed of it.
