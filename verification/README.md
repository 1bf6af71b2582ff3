# Guidance rules library

The rules and display logic behind a tabletop character builder and
compendium, written in Verus: every function in `src/` carries a contract
that Verus proves.

- `src/matching.rs` attributes shared spell picks to the classes whose own
  pool and budget they fit (augmenting paths), proved complete and sound.
- `src/save.rs` re-checks a saved character against what its classes,
  background and species unlock and names the first refusal;
  `src/validation.rs` holds the individual checks.
- `src/builder.rs`, `src/slots.rs`, `src/progress.rs`, `src/picks.rs`,
  `src/asi.rs`, `src/abilities.rs`, `src/classes.rs`, `src/prereqs.rs`,
  `src/sorted.rs` and `src/sources.rs` are the builder's steps: navigation, slot layouts, keeping
  picks in line with changed slots, step completeness, and where each
  proficiency comes from.
- `src/species.rs`, `src/sheet.rs`, `src/items.rs` and `src/labels.rs` build
  the lines shown on the builder, the character sheet and compendium pages;
  `src/text.rs` has the string building blocks.
- `src/session.rs` holds the login and save-target decisions.

`app/` holds what stays outside the proofs: labels computed on floating-point
amounts, and entry points that check the library's preconditions before
calling it. `tests/` runs the library on concrete values.
