# ap

Fixed-width arbitrary-precision integers (`ApInt`) with two's-complement
semantics, stored as little-endian 64-bit limbs, verified with Verus.

Every value is modelled as an `IntModel { width, value }` with
`0 < width` and `value < 2^width`; each operation's contract states its result
through a model function (`add_model`, `sdiv_model`, `sext_model`, ...).

Layout:

- `src/detail` — the full 64×64-bit product of two limbs.
- `src/integral/model.rs` — the value of a limb vector and its lemmas.
- `src/integral/mod.rs` — `ApInt`, its invariant and its operations.
- `src/integral/detail` — limb-vector algorithms: addition, subtraction,
  comparison, schoolbook and Karatsuba multiplication, Knuth's division.
- `src/integral/parse.rs` — reading integers from text, with the grammar and
  its errors as spec functions.
- `src/integral/format.rs` — hexadecimal text of an integer.
- `src/integral/ops.rs` — the operator traits.
- `src/integral/laws.rs` — laws of the operations (ring laws, division
  identities, sign and width laws, De Morgan, reading back the text).
- `app/` — serde support, `Display`/`Debug` through a wrapper, and error
  messages as text.
