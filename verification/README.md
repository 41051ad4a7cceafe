# pdf_filler

Fills the AcroForm fields of a PDF from a flat map of field names to values, and
strips the template defaults of dropdowns that were left empty.

```sh
pdf_filler <template.pdf> <data.json> <output.pdf>
PDF_DUMP_FIELDS=1 pdf_filler <template.pdf> _ _
```

## Layout

- `src/` — the library, verified with Verus. It holds its own model of a PDF
  document (`object`, `dict`, `document`): objects, dictionaries that keep insertion
  order, and indirect objects reached through chains of references.
  - `text` — PDF text strings (UTF-8, UTF-16BE with a byte-order mark) and escaping.
  - `layout` — words, the font size operand of a `/DA`, greedy word wrap.
  - `fields`, `collect`, `names` — walking the field hierarchy: names, types, flags,
    default appearances, the field tree and the page widgets, the sorted name list.
  - `appearance` — text appearance streams.
  - `fill`, `strip` — filling a form and stripping unfilled dropdowns.
  - `json` — reading the data file (a JSON object, parsed with `serde_json`).
  - `structure`, `laws`, `laws_widgets` — what filling keeps, and the properties
    proved of filling, stripping and wrapping.
  - `ready` — whether a loaded document can be listed and filled.
- `app/` — the command line program: loading and saving with `lopdf`, reading the
  files, and the floating-point layout of appearances.
- `tests/` — tests of the library.
