# soletra

A terminal version of the word puzzle Soletra / Spelling Bee, in Portuguese
and English: find the words made of seven letters, each using the letter in
the middle.

The crate is a library verified with Verus, with a thin program around it.

- `src/` — the verified library.
  - `text`, `normalize`, `letters`: characters, white space, lines,
    numbers; folding of case and accents; the letters a word uses.
  - `wordlist`: selecting the words of a language from downloaded lists.
  - `collation`, `order`, `generate`: building every puzzle of a word list.
  - `game`: scoring words and guesses on a puzzle being played.
  - `progress`: the puzzles started in a language and moving between them.
  - `session`: what each key and click does, and what each frame shows.
  - `language`, `paths`: the languages and the files the game keeps.
- `tests/` — tests of the library on concrete values.
- `app/` — the terminal program: drawing, input events, downloads, files.

Controls on the language screen: Ctrl+C quits, the arrows change the
language, Enter selects it. On a puzzle: Ctrl+C quits, Ctrl+L returns to the
language screen, the arrows scroll the found words, `[` and `]` move to the
previous and next puzzle, letters type the guess, Enter submits it and
Backspace erases its last letter.
