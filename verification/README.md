# booklet

Turns a PDF into booklets: the pages are cut into booklets of a multiple of
four pages, short booklets are filled with blank pages, and each booklet's
pages are put in the order in which they must be printed so that the folded
sheets read in sequence. The pages can stay one to a sheet (reordered only,
with backs optionally turned by half a turn) or be imposed two to a
landscape sheet (A4, A3 or US Letter).

Layout:

- `src/` — the verified library (Verus).
  - `layout.rs`: booklet size, cutting into booklets, blank padding, the
    printing order, and the laws about them.
  - `sides.rs`: which sides are backs and the half-turn of a page rotation.
  - `text.rs`: reading the booklet size choice, the output mode, file names
    and messages.
  - `pdf.rs`: the model of PDF objects and the `lopdf` operations used, with
    their contracts.
  - `document.rs`: the document edits (blank pages, arranging a booklet or
    all booklets, turning backs, page tree, catalog, pruning, the form
    XObject that carries a page onto a sheet) and the bytes written for a
    document.
  - `error.rs`: the error type and its messages.
- `app/` — command-line front end: reading and parsing the input file,
  decoding page content, writing the bytes the library produces, and the
  floating-point placement of two pages on one sheet.
- `tests/` — tests of the library.
