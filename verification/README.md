# address-tool, verified

A small library (and command-line tool) that takes a postal address as
plain text, checks that it is well-formed, and renders it in a canonical
shape, as text or as JSON. US addresses use the block form

```
123 Main St
Apt 4B
Springfield, IL 62704
```

where the last non-blank line is `City, ST ZIP` (or `ZIP-XXXX`); a
Canadian parser accepts `City, PR A1A 1A1`.

The library in `src/` carries its specifications and proofs:

- `text.rs` — whitespace (the Unicode `White_Space` class), trimming,
  splitting into lines, pieces and words, joining, and the few calls into
  std that are trusted (`String::push`, `str::to_uppercase`,
  `str::to_lowercase`, `str`'s `Debug` quoting).
- `address.rs` — the US parser: specification (`parsed`) and the
  functions proved against it, plus text and JSON rendering.
- `international.rs` — the Canadian parser (`parsed_ca`) and rendering.
- `report.rs` — rendering a batch of results (`--multi`).
- `laws.rs` — properties proved for every input: lenient mode only adds
  recoveries to strict mode, a parsed address is valid, the canonical text
  parses back to the same address, input without blank lines is one
  block, and more.

`app/main.rs` is the command-line front end: argument handling, reading the
input, printing.
