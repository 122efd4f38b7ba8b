# pdfcrop

Crops the pages of a PDF to their content (or to given boxes), with
optional margins, and can remove the content that falls outside the crop.

The crate is a library whose logic is specified and proved with Verus,
plus a command-line program around it.

## Layout

- `src/` — the verified library:
  - `text`, `codes`, `codemap`: character and byte-string primitives
    (tokens, lines, trimming, hexadecimal, big-endian code successors, a
    map from byte codes to values);
  - `cmap`, `tounicode`: reading CMap and ToUnicode data;
  - `font`: the integer side of font metrics (code width, writing mode,
    how string bytes become character codes, `W` array ranges);
  - `ops`, `segment`: classifying content-stream operators and cutting a
    stream into components (text blocks, painted paths, XObjects, orphan
    text, graphics state);
  - `keep`, `stream`: deciding which components a crop keeps and which
    operators survive, and whole-stream decisions;
  - `pixels`: the extent of ink in a rendered page;
  - `selection`, `parse`: choosing a page's crop box and the token
    structure of margin, box and Ghostscript specifications;
  - `findtext`: locating and decoding shown text;
  - `pdf`: the calls into `lopdf` and `std` on raw data.
- `app/` — the program: command line, file I/O, `lopdf` documents,
  rendering with `hayro`, Ghostscript, and all floating-point geometry.
- `tests/` — tests of the library.
