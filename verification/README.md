# fixed_width

The fixed-width content contract: text held to a record layout read from a
COBOL copybook, verified with Verus.

- `src/copybook.rs` reads the copybook subset into a `Layout` and states, as
  spec functions, what every statement, item and field is.
- `src/conformance.rs` cuts a text into records and finds the departures of
  each record from the layout.
- `src/lib.rs` holds `FixedWidth`, the contract, bare or bound to a layout,
  and `FixedWidthFactory`, which loads one from a reference.
- `src/laws.rs` proves what holds of every copybook, layout and text.
- `src/text.rs` holds the string operations the rest rests on, each stated
  over `Seq<char>`, and the few calls into `std` that the proofs take on trust.
- `src/contract.rs` holds the contract vocabulary: refusals, descriptors and
  validation issues.
- `app/lib.rs` reads a copybook file when a reference names one.
