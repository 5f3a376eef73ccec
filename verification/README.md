# trapo_server

The verified core of the Trapo OCR workbench server, written in Verus. Each
public function carries a `requires`/`ensures` contract that Verus proves, and
the laws the workbench relies on are stated as proof functions.

## Layout

- `src/` — the library, verified by Verus:
  - `markers`, `ocr_page` — the `<|ref|>…<|det|>` marker grammar of OCR output,
    the parsed page (regions, text spans, cleaned text) and the shared output form.
  - `segments`, `segment_laws` — cutting recognised pages into text segments for
    retrieval, with the offsets and token budget they keep.
  - `ingest` — runs and documents in memory: stopping, resuming, page progress,
    engine status, completion manifests and shutdown.
  - `ocr_worker` — whether a run's OCR worker runs the native engine, stands in
    with the compatibility adapter or reports why it cannot run.
  - `config`, `cli` — server configuration from the environment, the command line
    and the directory layout; the commands answered before the server starts.
  - `catalog`, `runtime`, `native` — OCR profiles and models, runtime selection,
    native library names, symbol checks and search orders.
  - `logs`, `dialog`, `workbench`, `search`, `regions`, `order`, `ids`, `text` —
    log lines, the folder dialog, workbench settings and records, search labels,
    image regions, orderings, persistence ids and string helpers.
- `tests/` — tests of the library on concrete values.
- `app/` — the command-line program around the library: environment and file
  system access, native library loading, dialogs and JSON output.
