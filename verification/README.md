# logo

A verified front end for a small Logo dialect (`forward`, `backward`,
`left`, `right`, each followed by a number).

- `src/` is the library, verified with Verus: the lexers, the parsers, the
  interpreters that describe programs in words, and the planning of SVG
  drawings. Each public function states its result exactly in its
  contract; the `law_*` proof functions state what holds across functions
  (for instance, that writing a program as text and reading it back gives
  the program).
- `tests/` runs the library on sample programs.
- `app/` is the command-line driver: it prints, and it does the
  floating-point geometry of the turtle and of the SVG pen
  (`app part1`, `app part2`, `app part3` run the other front ends).
