# scopic

A side-by-side terminal viewer for git and jj diffs: per-file header bars with
`+n -n` change counts, full-width hunk bands, intraline word highlights, dual
line numbers, collapsible files, a movable divider, and mouse selections that
copy one pane's source text.

```
jj diff --git | scopic
git diff | scopic
scopic changes.diff
```

Colored input is fine; ANSI codes are stripped before parsing. What is not
understood is shown as dim text. Empty input exits silently.

## Keys

`j/k` scroll · `ctrl-d/u` half-page · `n/p` next/prev file · `c` collapse ·
`g/G` top/bottom · `=` center the divider · `q` quit

## Layout

`src/` is the viewer itself, verified with Verus:

- `diff`, `intraline`: a diff as rows, with the words that differ in paired lines
- `wrap`, `segments`, `style`, `render`: rows as styled lines of a screen
- `sections`, `selection`, `state`, `ui`: files, what is visible, what the mouse
  points at, and every operation on the viewer
- `events`: keys, the mouse, and what is told of a copy
- `text`, `bytes`: characters, lines, words, numbers, UTF-8 offsets
- `reading`, `numbering`, `viewing`, `pointing`, `running`, `telling`: what holds of
  all of it

`state::AppView` is the viewer as a value. Every method of `ui::App` says which
value it leads to.

`app/` is the program around it: arguments, input, the terminal, the clipboard.
