# wasm-typst

The Typst compiler as a LibrePaper editor previews a document with, and the
logic around it, written in Verus: what the compiler is asked and what is made
of its answer is proved against its contracts.

## Layout

- `src/` is the verified library.
  - `page.rs`: the standalone HTML page around a document, with the title
    escaped, and the first level-one heading of a source.
  - `diagnostic.rs`: what a compile says, as a `file:line:col` line, as JSON a
    browser reads back to the same text, and as the page that stands in for a
    document that did not compile.
  - `text.rs`, `myers.rs`: word tokens (alternating runs of white space and of
    everything else) and the word diff. Its edits, in UTF-16 units, land on
    the new text whether applied back to front or front to back, and they
    keep as many of the old tokens as any edit script could, whenever the two
    texts are within `TRACE_CEILING` token edits of each other. Which edits
    they are is stated exactly: the common head and tail come off, and
    greedy Myers (`myers::greedy`, its rounds and the way back through them)
    matches the rest (`text::hunks_of`).
  - `merge.rs`, `order.rs`: the three-way merge. Each side's edits are its
    word diff from the base. Edits both sides made alike are taken once; the rest group into regions of colliding edits, each of
    which reads as the session's version where the session touched it; every
    conflict is located in the merged text.
  - `typst.rs`: which names are typst sources, the title, today's date from
    the clock (always a day of its month), the line and column of a byte as typst counts lines, and the
    order of a compile's diagnostics.
  - `chars.rs`, `strings.rs`: white space, UTF-8 and UTF-16 lengths, slicing
    and string building.
- `app/` runs the compile: the typst `World` over the host's files, the
  embedded fonts, and the calls into `typst`, `typst-layout` and `typst-pdf`.
- `tests/` runs the library on concrete values.

## What is taken on trust

Calls out of the library go through small functions whose contracts are
believed rather than proved: `str::to_lowercase` (its result only named),
the system clock (`SystemTime::now`, `duration_since`, `Duration::as_secs`,
of which nothing is promised), typst's `Lines::byte_to_line` and
`Lines::line_to_byte`, whose results are stated over typst's line breaks,
and two of std's own: `==` on `str` and `String::push`. White space and
a character's UTF-8 and UTF-16 lengths are written out and proved instead.
