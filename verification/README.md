# fnec

The verified core of an NEC-2 antenna-modelling toolchain, written in Verus.

`src/` is the library, every function proved against its contract:

- `text` — the character-level rules the deck and manifest formats share
  (whitespace, lines, words, number text, decimal rendering).
- `template` — `$name` substitution in deck templates.
- `card`, `parser` — NEC cards and the deck parser, stated as a function of
  the deck's lines; validators and post-processors over a parsed deck.
- `project` — project files: version checks, the Markdown manifest (with the
  law that a project text wrapped in it comes back unchanged), the run
  history.
- `geometry` — the integer side of building a structure: wires as tag runs,
  the segment budget, the tag arithmetic of `GM` and `GR`, the card-by-card
  build with its refusals, the ground choice.
- `topology`, `loops`, `walks` — wire ends, junctions, collinear merging and
  the decomposition into conductor paths, with the proofs that paths are
  refused exactly for a T/Y junction or a closed loop, and that every
  segment of an accepted wire set lies on exactly one path, once.
- `excitation` — what each `EX` card drives: feedpoints, the delta gaps of a
  Hallén right-hand side and the segments they name, and what the MPIE
  refuses.
- `solver`, `mpie`, `network`, `report` — routing decisions, load placement,
  the MPIE basis layout and its counting law, network ports, the text
  report's layout, and the solvers' error types with their messages.

`tests/` exercises the library. `app/` is the floating-point and
serialisation layer around it: typed cards with machine numbers, coordinates,
load impedances, frequency sweeps, number formatting and TOML project files.

`app/` is not a complete solver. It holds the pieces listed above and the
dense linear algebra of the sinusoidal-basis Hallén solve, but not the solve
sessions built on them: the delta-gap, plane-wave, current-source,
ground-image, two-port-network and MPIE sessions, the far-field batches on the
GPU, and the command-line program are not here. Those sessions are
floating-point work throughout, and several of them rest on parts of the
toolchain that this repository does not contain (the Sommerfeld ground,
transmission-line stamps, tapering and deck validation). What they decide
in integers — the routing, the refusals, the segments a source drives — is
in `src/`.
