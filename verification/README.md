# wordle

A Wordle game whose engine is verified with Verus.

- `src/` is the verified library: the colouring of a guess (`feedback`),
  the hard-mode rule (`hard_mode`), word lists, sorting and the seeded
  shuffle of the answers (`words`), the guess statistics (`stats`), the saved
  game history (`history`), the steps of a game (`play`) and the options
  (`setup`). Each function states what it computes in its contract; the
  laws of the game (the colouring is the Wordle rule, the keyboard never
  loses information, hard mode accepts the last guess again, the statistics
  count every guess) are proof functions.
- `app/` is the program around it: command line, files, JSON, terminal
  input and coloured output.
- `tests/` runs the library on concrete games.

The program reads its answers and acceptable words from the files given
with `--final-set` and `--acceptable-set`.
