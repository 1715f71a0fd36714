# breeze

A small modal text editor for the terminal. Its logic is a library whose functions carry contracts
that Verus proves; around it stands a thin program.

- `src/` is the library. `lines`, `idx` and `coord` say where things are in a text; `selection`,
  `order`, `buffer` and `edit` are selections and the edits made at all of them at once; `mode`
  and `state` are what the keys do; `terminal`, `writer` and `editor` draw the screen.
- `laws`, `many`, `one_line` and `frames` hold proofs of what the editor promises as a whole, such
  as that a backspace takes back what was typed at one cursor, or at several on one line.
- `rope` and `terminal` say what is taken as given of the `ropey` and `termion` crates.
- `tests/` runs the library; `app/` is the program.

## Keys

In the normal mode `h`, `j`, `k` and `l` move the cursor, and with shift extend the selection. `w`
and `b` select the next and the previous word, `x` a line, `X` further lines and `%` all. `'` swaps
the ends of the selection. `d` deletes, `y` yanks, `p` pastes and `P` pastes into the selection. A
number before a move says how often to do it. `i` goes to the insert mode, `Esc` back, and `q`
quits.

## Running

```
breeze [file_path]
```
