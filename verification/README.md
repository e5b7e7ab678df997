# cobill

A command-line bill splitting tool, with its logic verified by Verus.

```bash
cobill add Alice --paid 20 --for Alice Bob --reason Food   # add a bill
cobill ls                                                  # list bills
cobill ls --optimize                                       # who should pay whom
cobill edit                                                # edit bills (or: cobill vi/vim/nvim/helix/nano)
cobill clear                                               # forget all bills
```

Amounts are counted exactly, in hundredths of the currency unit.

## Layout

- `src/` — the verified library:
  - `bill.rs`: bills under their identifiers, and the result of splitting them;
  - `calc.rs`: each person's share of each bill, and the net settlement between people;
  - `amount.rs`: shares, and amounts written and read as decimal text;
  - `sheet.rs`: bills as an editable text table, and back; the settlement table;
  - `readback.rs`: proof that a table written from bills reads back as the same bills;
  - `display.rs`: plain-text tables padded to the display width of their cells;
  - `edit.rs`: dropping comment lines from edited text;
  - `complete.rs`: shell completion for `add`, `edit` and `ls`;
  - `add_args.rs`: the arguments of `add`;
  - `text.rs`, `who.rs`, `error.rs`, `io_error.rs`: text helpers, people, errors.
- `app/` — the command-line program: arguments, the state file (YAML), the editor, and the
  `__comp` requests of the shell completion scripts.
- `tests/` — tests of the library.
