# fjiffyldg

Random access to very large text files: encoding checks, a three-level line
index built by scanning the text (whole or window by window), and the
decisions behind loading a file and reading bytes, lines and batches of
lines from it.

## Layout

- `src/` — the library, verified with Verus.
  - `encoding.rs`: byte-order-mark detection, ASCII and UTF-8 validation,
    UTF-8 character counting, UTF-16 / UTF-32 to UTF-8 conversion.
  - `error.rs`: the error type and its C codes, the text modes.
  - `line_scan.rs`: the model of line scanning (where line endings are
    found, where lines start, how long they are) and its laws.
  - `line_index.rs`: the line index, its invariant, building it from a
    text, and the line / position queries.
  - `window_scan.rs`: building the index from consecutive file windows.
  - `file_state.rs`: the state of a loaded file, the loading steps, scan
    mode resolution, the line scan fed window by window, mapped-window
    planning and read planning.
- `tests/` — tests of the library.
- `app/` — the file model around the library: file and memory-map I/O,
  background scans, whole-file operations and the C interface.
