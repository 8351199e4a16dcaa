# matlib

Integer matrices, small number theory, packed exponent registers, and a
terminal drawing grid, written in Verus: every function of the library carries
a contract, and Verus proves each body against it, with one exception. The
calls into outside code (the 256-bit integers of `ethnum`, the 4-bit integers
of `ux`, the ordered vector of `sorted_vec`, and the collection of characters
into a `String`) stand in small wrappers marked `#[verifier::external_body]`.
Verus takes their contracts on trust; each wrapper's doc comment names the
outside function and says what its contract claims of it.

## Layout

- `src/maths.rs`: least common multiples (`lcm`, `lcd`) over `i64`.
- `src/utils.rs`: merging of two ordered sequences.
- `src/collections.rs`, `src/linalg.rs`, `src/matrix_laws.rs`: the `Matrix`
  type, its constructors, checks, arithmetic (the product switches to
  Strassen's method on large inputs), Gauss reduction, cofactors, inverses,
  linear maximisation checked by a certificate of optimality, and the laws that relate its
  operations; `src/determinant.rs`: the exact determinant by cofactor
  expansion; `src/matrix_text.rs`
  writes a matrix as text.
- `src/bits.rs`, `src/swar.rs`: blocks of bits that hold several small
  quantities ("SIMD within a register"); the 256-bit block computes with
  `ethnum`, the 4-bit chunk is built by `ux`.
- `src/register.rs`: products of unknowns packed one power per chunk.
- `src/math_tree.rs`: expression trees, and the reading of expressions into
  them with numbered variables.
- `src/expended.rs`: sums of signed products kept in order in a
  `sorted_vec::SortedVec`.
- `src/game.rs`: the grid, cursor and line drawing of the terminal game; the
  library decides what each frame prints.
- `app/`: the program around the library: it reads an expression with `syn`,
  stores its tree with `bincode`, expands it, and runs the game on a terminal
  with `crossterm` (`game` argument).
- `tests/`: the tests, run against the compiled library.
