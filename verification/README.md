# custom_terminal

The core of a terminal user interface that draws by difference: it compares the frame that the
screen shows with the one that was rendered, and writes the escape sequences that lead from one to
the other, or repaints whole rows. The library is verified with Verus.

- `src/buffer.rs`, `src/geometry.rs`, `src/style.rs`, `src/width.rs`: cells, frames, areas, styles,
  and how many columns a symbol takes up.
- `src/diff.rs`, `src/modifier_diff.rs`, `src/draw.rs`: the changes between two frames, and the
  bytes that carry them.
- `src/dense.rs`: the bytes that repaint rows.
- `src/ansi.rs`, `src/ops.rs`: escape sequences, and what it means that bytes encode commands.
- `src/terminal.rs`: the two frames, the cursor and the history above the viewport. Operations come
  as lists of steps; each step names a call to the device and what changes once it has succeeded.
- `src/screen.rs`, `src/pen.rs`, `src/repaint.rs`, `src/display.rs`, `src/session.rs`: a model of
  the screen and of the terminal's pen, and proofs that what is written shows the frame.
- `app/`: the same terminal on a backend of `ratatui`.

What the proofs about the screen rest on and leave out:

- A symbol whose columns are partly overwritten turns into spaces in its style; the proofs about
  wide symbols rest on terminals doing so.
- A frame is left out where such a rest stays on the screen and does not look like the cell that
  belongs there, and where erasing the rest of a row would cut a symbol.
- Symbols without columns are left out where they come in the way of others, and in repaints.
- Concealed text is left out: no attribute is sent for it.
- Colours of underlines are not sent.
