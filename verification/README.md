# tabulated_gemm

Exact matrix products over coded weights, by table lookup, verified with Verus.

A weight is a code that names one entry of a finite book. The dot product of a
tile of activations with every entry is computed once into a table, and the
columns of the product are sums of table entries: one read and one addition per
code, and no multiplication. Every route through the crate (by table, by dense
kernel, or streamed) gives the same exact result; what they differ in is counted
by a census.

- `gemm` holds the entry points and the queries that say how much to offer.
- `drive`, `tabulate`, `rows`, `accumulate`, `envelope`, `schedule`, `sweep`,
  `sources` and `tile` make up the tabulated walk; `routes`, `paged` and `stream`
  the others.
- `plan`, `selection` and `sizing` decide between them, from declarations alone.
- `element`, `limbs`, `lane`, `family` and `integers` describe the arithmetic;
  `codec` and `books` the coded operand; `epilogue` what becomes of a total.
- `isa` holds the kernels and table sequences by machine family.
- `f32_q` and `scale` find the common grade of floating-point panels from their
  words.
- `laws`, `offers` and `charges` state what holds of the library as a whole.

`app/` detects the features of the running machine and hands floating-point
panels over as words.
