# rag_ingestion_core

Turns a PDF file into Markdown chunks for retrieval, without guessing: recurring headers and
footers are left out, every page is rendered and scored for what it lost, pages that lost a table
are held back, and the rest is cut into chunks within a token budget, each under its own headers.

The library in `src/` is verified with Verus. `app/` is the command-line program around it.

| module | what it does |
| --- | --- |
| `pdf_document`, `pdf_object` | a loaded file as plain values: objects, pages, corners, fonts, contents |
| `stream_filters` | ASCII85, ASCIIHex and zlib streams, and chains of them |
| `font_metrics` | where the widths of the glyphs of a font come from |
| `pdf_extract` | the operations of a page as a script of steps, and its texts and lines |
| `table_grid`, `column_layout` | tables with drawn rules, and columns |
| `spatial_filter` | recurring headers and footers, and the spatial index of a page |
| `markdown_render`, `markdown` | pages as Markdown, and Markdown as headers and bodies |
| `fidelity`, `rendered_table` | how much of a page its Markdown holds, and that a table comes through |
| `json`, `tokens`, `chunker` | tokenizer definitions, token counts and chunks |
| `pipeline` | all of it, from pages to chunks |
| `order`, `text`, `types` | what the others share |

Positions and sizes are whole micropoints, a millionth of a PDF point. `pdf_extract` resolves the
content of a page into steps; `app/interpret.rs` carries them out, which is where the floating-point
arithmetic of transformations and advances stands.

Each module ends with its laws: proof functions that state what holds of it for all inputs. The
items marked `external_body`, `external_type_specification` or `assume_specification` state what is
taken on trust of other crates; that memory and stack suffice is taken on trust throughout.

## Running

    rag_ingestion_core document.pdf my_document_id

reads the file (or standard input), writes one JSON object per line to standard output and alerts
to standard error. It needs two data files in the directory that `RAG_RESOURCES` names, or in
`resources`:

- `tokenizer.json`, a tokenizer definition in the format of the `tokenizers` crate: a BPE or word
  model over texts that are split at white space or by the patterns of cl100k, o200k or gpt2, without
  dropout, truncation or padding, which would make its counts inexact;
- `standard_fonts.json`, with `aliases` (pairs of a font name and the standard name that it stands
  for) and `tables` (`font`, `encoding` and the 256 `widths` of each standard font).
