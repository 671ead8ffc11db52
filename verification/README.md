# tools

The programs that build a book written as Markdown chapters into an HTML
book and a LaTeX book, with their logic verified by Verus.

- `src/` is the verified library:
  - `mdbook`: the book's items (numbered chapters, affixes, spacers), their
    reading order, lookup by path and chapter depth;
  - `amalg`: the amalgamation format (many documents in one, each after a
    marker comment), which block or line belongs to which document, and the
    proofs that reading an amalgamation back gives each block its document
    and that splitting its text gives back its documents (where no line of a
    document is a marker, holds a newline or ends with a carriage return);
  - `links`: the index from element ids to documents and the rewriting of
    `#id` links across documents;
  - `merge`: the plans for the LaTeX book (front matter, main matter,
    appendix, back matter) and for the HTML book (its `SUMMARY.md` and its
    documents);
  - `config`: the `book.toml` of the HTML book from `key=value` metadata;
  - `quote`, `text`, `strmap`, `paths`: quoting, text helpers, a string map,
    and path arithmetic done by `std::path`.
- `app/` is the command-line program: `tools <tool> [arguments]`, or the
  program installed under a tool's name, where the tool is one of `append-biblio-title`, `get-book-items`, `html-fix-links`,
  `html-mdbook-toml`, `html-merge`, `html-split` and `latex-merge`. It reads
  and writes files, walks Pandoc documents and reads the book with mdBook.
- `tests/` runs the library on examples.
