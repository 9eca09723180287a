# wordle

A Wordle solver and assistant whose core is verified with Verus.

`src/` is the verified library:

- `word.rs`: five-letter words in upper-case ASCII, reading them from text.
- `pattern.rs`: colour patterns coded as base-3 numbers below 243, reading and writing them.
- `solver.rs`: the feedback a guess gets, hard-mode rules, the word lists, filtering candidates
  and choosing which guesses to score.
- `ranking.rs`: the letter-frequency pre-ranking of guesses, capping the guess pool, and
  partitioning the candidates by pattern.
- `word_lists.rs`: turning word-list texts into sorted lists.
- `cli.rs`: command-line options.
- `session.rs`: one line of an interactive game, and one turn of a simulated game.
- `text.rs`: character-level helpers (white space, upper case, splitting).

`app/` holds the program: reading the word lists and standard input, printing, and the
floating-point scores of suggestions.
