# cs_course

Exercises of a systems programming course, written as a verified library: each function
states what it returns in its contract, and Verus proves the code against it.

- `src/` is the verified library, one module per topic: numbers (`bigint`, `rational`,
  `render`), symbolic differentiation and polynomials (`symbolic`, `semiring`, `polynomial`,
  `poly_parse`, and `poly_laws` for the semiring and evaluation laws of polynomials), lists and strings (`sequences`, `stats`, `words`, `shell`, `filters`,
  `inversions`, `means`, `cartesian`, `median_position`, `sorting`), iterators and generators
  (`adaptors`, `iters`, `generator`, `divisors`, `pythagorean`), data structures
  (`linked_list`, `trees`, `graph`, `cache`, `organize`, `segments`, and `split_order` for the key arithmetic of a split-ordered hash table) and a puzzle
  (`labyrinth`). Laws that relate several functions are public proof functions beside them.
- `tests/` runs the library on concrete values.
- `app/` holds what the verifier does not model: threads and channels, locks, atomics,
  closures behind `dyn Fn`, and floating point. It calls the library for the rest.
