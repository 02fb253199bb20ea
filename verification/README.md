# sdcpi

Strategy determination for BPMN+CPI, verified with Verus.

A process is a binary tree. Its leaves are tasks, each with a duration and an
impact, a vector of non-negative numbers; its inner nodes are sequences,
parallels, choices and draws (`nature`). A strategy says which child to take at
every choice, and may look at everything that happened so far. Given a budget,
one value per component, the library searches for a strategy whose expected
impact is within it in every component at once. It answers `yes` with the
strategy, or `no`, meaning that no strategy fits.

## Layout

- `src/` is the library. Every item of it is verified.
- `tests/` runs it on concrete processes.
- `app/` is the command line around it: files, threads, the clock and the double
  precision numbers the commands compute with.

## Numbers

The library is generic over its numbers (`src/num.rs`). Contracts hold for any
implementation of the trait, rounded ones included, over named operations; the
laws about expected values ask that these be the operations of the real numbers.
`src/decimal.rs` holds decimals of any length, for which that is proved. The
commands use doubles, which round: the option `--epsilon` is the slack for it.
