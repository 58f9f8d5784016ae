# lwpdf

A verified core for generating business-document PDFs, written in Verus.
Every function under `src/` carries a contract that Verus proves; the few
calls into other crates sit behind small trusted wrappers whose contracts
say what those crates document.

## Layout

- `src/pdf/` — PDF object syntax: fixed-point number formatting, the
  object/xref writer, content-stream operators, image XObjects, CID fonts,
  pages and links, bookmarks, the structure tree and the whole document.
- `src/fonts/` — TrueType loading and subsetting: `sfnt` assembly with its
  checksum, `loca`/`glyf` rebuilding with the composite-glyph closure, and a
  format-4 `cmap` together with the proof that it maps each character to
  its glyph and nothing else.
- `src/image.rs`, `src/image/` — JPEG and PNG header validation.
- `src/template.rs` — template + data resolution over JSON trees, and from
  JSON text to compact JSON text through `serde_json`.
- `src/theme.rs`, `src/element.rs` — theme roles and inline text runs.
- `src/snapshot.rs` — grayscale decoding and pixel comparison for visual
  regression snapshots.
- `src/layout/` — the layout engine's integer and text rules: table grid
  planning, unbreakable row blocks, hyphenation, text wrapping (plain and
  rich) with exact integer widths, page breaks within paragraphs, warnings,
  list markers, structure roles, table-of-contents anchors and lines.
- `src/currency.rs`, `src/document.rs`, `src/style.rs`, `src/text.rs`,
  `src/bytes.rs` — formatting helpers and shared value types.
- `app/` — ordinary Rust around the library: a template error type with
  `Display`, `f32` coordinates and font metrics, error types with `Display`, and the
  poppler/qpdf shell-outs used by tests and snapshot checks.
- `tests/` — tests of the library through its public interface.

Coordinates, sizes and widths in the library are fixed-point: a value `m`
stands for `m / 1000` points and is written with at most three decimals.
Text widths are exact products of advances (thousandths of an em) and
sizes, in millionths of a point.

## What is not here

The floating-point half of the engine stands in neither `src/` nor
`app/`: the element builders of the document model (`Document`,
`Paragraph`, `Table`, `Row`, `Column`, `Image` and the rest), the `f32`
layout of those elements (`Column`, `Row` and `Table` layout, cell
rendering, pagination and the page renderer), and the command-line tool
with its JSON schema. Verus does not reason about floating point, so
those functions cannot be verified, and without them the `app/` shims
have nothing to drive them. What they decide on integers and text is
here: table grid planning and unbreakable row blocks, text wrapping,
paragraph breaks, hyphenation, warnings, list markers and structure
roles, all in fixed point. `app/` keeps only the conversions between
those fixed-point values and `f32`, the font metrics scaled to 1000
units per em (with the italic angle, itself an `f32`), and the external
tools.

