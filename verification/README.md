# primorial_of_a_number

A primorial calculator: the product of the first `n` primes, found with an
odd-only sieve of Eratosthenes and multiplied in pieces with `num-bigint`.

- `src/` is the verified library (Verus):
  - `primes.rs`: integer square root and the sieve, proved to return exactly the
    primes up to the limit for limits of 2 and more (the limits 0 and 1 give
    `[1]` and `[2]`);
  - `number.rs`: `BigNat`, a natural number held as base 2^32 digits, whose
    arithmetic and conversions are calls into `num-bigint`;
  - `primorial.rs`: the primorial, computed piece by piece, proved equal to the
    product of the first `n` primes;
  - `storage.rs`: what is saved to and loaded from the number files;
  - `text.rs`: wrapping text into numbered or plain lines;
  - `calculator.rs`: the state of the terminal calculator and its answer to
    each key.
- `app/main.rs` is the terminal front end: drawing with `tui`, key events from
  `crossterm`, timing, threads and file I/O.
- `tests/` runs the library on concrete values.
