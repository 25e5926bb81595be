# typoena

The verified core of Typoena, a distraction-free e-ink writing machine: the
pure logic of its editor and firmware, written in Verus and proved against
its contracts.

- `text` — the mathematical model of the string operations everything else
  uses (trim, split/join, find, lines, UTF-8 widths, decimals), with
  executable versions proved against it.
- `conf` — the `typoena.conf` provisioning file: parse, render, required
  fields, remote-URL shorthands; render-then-parse gives the config back.
- `prefs` — `.typoena.toml` preferences and the palette's preset rotations;
  `to_toml` then `parse` gives the preferences back.
- `snippets` — snippet bodies: label stripping, tab-stop extraction in visit
  order, and the library built from the JSON file's entries.
- `fuzzy` — the palette's fuzzy scorer (proved to answer exactly when the
  query is a subsequence of the text) and the folding search helpers.
- `palette`, `buffers` — palette labels, friendly file names, the `>`
  command registry, path resolution between the repo and local scopes, and
  relative markdown links (a written link resolves back to its file).
- `markdown`, `tables` — headings, list/quote continuation, link spans,
  `:pub` link retargeting, and the `:fmt` formatter with pipe-table
  alignment (it never leaves two blank lines in a row).
- `render` — word wrapping for the side panel (no line wider than asked).
- `panel`, `refresh` — which framebuffer rows a repaint changed, the box of
  erased ink, the refresh policy, focus-mode timing, and the shuffle bag of
  Typo's faces (never the same face twice in a row, every bag the full pool).
- `ports`, `progress`, `runtime` — the application ports, the battery gauge,
  sync progress lines, what follows each hand-off to a port (push, pull and
  its discard paths, update, clock, setup), what a finished sync settles,
  the idle sequence's order, and the host's notices.
- `motions`, `search`, `objects`, `edits`, `insert`, `normal` — caret
  motions over the UTF-8 bytes, `/` search, text objects, the buffer edits,
  and the Insert, Normal, View and `.`-recording key decisions; every caret
  they leave sits on a char boundary.
- `layout`, `commands`, `modal` — soft wrapping and scrolling, the `:` line,
  and the confirm, rest and help cards.
- `filelist`, `newfile`, `publish` — the sorted, duplicate-free file list,
  the palette's `new file` step with folder completion, and `:pub`.

`app/` holds the host glue Verus does not see: the serde parse of the
snippet JSON into the verified library, and the service of the net and
system effects, which hands each one to its port and applies the verified
step.
