# typr

A typing test for the terminal, in the spirit of monkeytype, with its logic
written in Verus and proved against its contracts.

- `src/` is the `typr` library: the test as a state machine (`engine`), its
  scoring (`stats`), the word generator (`rng`, `words`), the history file
  format (`history`), the summaries and the `--stats` report (`summary`,
  `report`), the frames drawn for a running test (`render`, `theme`,
  `terminal`), the command line (`cli`) and the decisions of the interactive
  loop (`session`). Every function is verified; the few calls into the
  standard library that Verus has no specification for sit behind small
  wrappers whose contracts say what the documentation promises.
- `app/` is the program around it: raw mode and the terminal size through
  `libc`, the keyboard reader thread, the clock, the history file on disk, and
  the results screen, whose graph and consistency figure are computed in
  floating point.
- `tests/` exercises the library on concrete values.

Speeds and accuracies are worked out exactly from the counts. What is
written to the history file is rounded to hundredths, a tie to the even one
as a figure written to two decimals is, and it is read back exactly as
written; whole speeds shown on screen are rounded half away from zero.
