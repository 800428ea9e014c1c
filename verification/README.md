# markmv

Moves markdown files and rewrites every link that the move would break:
links inside a moved file are rebased onto its new directory, links in other
files that point at a moved file are pointed at its new place, and a link
between two files that both move is written from the new place of one to the
new place of the other. Fragments are kept; absolute URLs and anchor-only
links are left alone.

The library under `src/` is written in Verus. Its functions are verified
against their contracts, except two small trusted wrappers whose contracts
are taken on trust: `parser::offset_events`, which runs pulldown-cmark over a
document and hands its link events on, and `text::push_char`, which appends a
character to a `String`.

- `path` — Unix paths as strings: components as `std::path` reads them,
  normalisation without the filesystem, relative paths, with the laws that
  normalising is idempotent, that a relative path leads back to its target,
  and that no relative path with fewer components does.
- `parser` — the links of a document: inline links and images (from the
  events of pulldown-cmark), reference definitions (line by line), each with
  the byte range of its href; the laws that every link lies where it says it
  does and is resolved from the document's directory, that links come in
  the order of their offsets, that an inline link's href follows the `]`
  that balances the label's `[`, and that reference hrefs are tokens.
- `refactor` — resolving, rebasing and retargeting hrefs, with the laws that a
  rebased link still reaches its target and a retargeted link reaches the
  moved file, where the target can be written relative to the directory
  (`writable_relative`: the directory parts the href climbs out of are
  names, and the target's names below the shared part hold no `#` or `\`).
- `ops` — planning a move (which hrefs change), the report (sorted by path,
  with the count of updated links) and the new text of each file, with the
  laws that, file by file, every link leads to the new place of its target
  once the move is made and its new href stands in the new text, that the
  reports are about distinct paths in strictly ascending order, that the new
  text does not
  depend on the order in which replacements are listed, how long it is, and
  where each new href stands in it.
- `text` — conversions between strings and character vectors.

`app/` holds the command-line program: arguments (clap), walking the tree
(walkdir), reading, writing and renaming files.
