# rusty_dumb_tools

A collection of simple tools, written in Verus: each function of the library
states its behaviour in `requires` / `ensures` and is proved to meet it.

Layout:

* `src/` — the verified library:
  * `text` — the character-level helpers the tools share (trimming, decimal
    text, reading numbers);
  * `ltemp` — the line template formatter (`DumbLineTemplate`);
  * `lblscreen` — the line-by-line "screen" (`DumbLineByLineScreen`), which
    buffers the terminal output of an update;
  * `json` — the streaming JSON processor (`DumbJsonProcessor`), a character
    state machine that reports each leaf entry by its path;
  * `progress` — the progress registry and the progress line;
  * `arg` — the scanning of command-line arguments and the usage line;
  * `calc` — the infix calculation processor (`DumbCalcProcessor`), which
    builds the operand that the pushed units come to;
  * `calculator` — the calculator of key presses (`DumbCalculator`) on top of
    it, with undo and the history written as an expression.
* `tests/` — the tests of the library.
* `app/` — the demo program, and what works on floating-point numbers or on
  the terminal: the values of a calculation, the calculator display, the typed
  argument values, and the progress indicator that wraps an iterator.
