# wordle_stuff

Finds which answers could explain Wordle score grids whose guesses are
hidden. The logic under `src/` is proved in Verus; `app/` only does the
input and output around it (files, the clock, the browser and its progress
callback).

- `src/word.rs`, `src/score.rs`: words, score rows, and Wordle scoring.
- `src/text.rs`, `src/parse.rs`, `src/error.rs`: reading words and rows from
  text, writing them back, and the errors with their messages.
- `src/dictionary.rs`: the word list, read one word per line.
- `src/prefilter.rs`: the independent-row pass: each row on its own must be
  the score of some guess from the list against the candidate answer.
- `src/hard_mode.rs`: the sequential pass: each game must be a sequence of
  hard-mode legal guesses from the list.
- `src/progress.rs`: the two passes one step at a time, with the progress
  report due after each step, for callers that show progress.
- `src/trial.rs`: synthetic games with a seeded xorshift generator.
- `src/api.rs`: the solver's entry points; `src/cli.rs`: the command line.
- `src/laws.rs`: properties of the whole: Wordle's repeated-letter rule,
  text round trips, that the independent pass never drops an answer the
  hard-mode pass keeps, and that the answer of a synthetic hard-mode game
  always survives the solver, that generated games are deterministic and
  come in sequence, and that the solver over synthetic games sees only
  their score rows.
- `app/main.rs`: the trial program (reads `words.txt`, prints the games,
  writes `possible-words.txt`); `app/wasm_api.rs`: the browser interface,
  which takes its word list through `load_word_list`.
