# tsuro

The logic of a PDF reader, verified with Verus: signature recognition and
CMS checks, the recents and preferences files, the folder browser, the
print job, text search and selection, page navigation, the queue of page
renders and page loads with its cache budget, and the session state machine
of the reader's window.

- `src/` is the verified library. Calls into `lopdf`, `x509-parser`, `rsa`,
  `sha1`, `sha2`, `base64`, `miniz_oxide` and `unicode-normalization`, and a
  few std functions that vstd does not specify, go through small trusted
  wrappers whose contracts say what those functions promise. `lopdf` is
  built without its parallel reader, so that what a file loads to depends on
  its bytes alone. Loading a file with `lopdf` is left to the caller of
  `analyze_pdf`, since lopdf's reader can panic or abort on some crafted
  files; the command catches such a panic and reports it as a load error.
- `tests/` runs the library on concrete values; `extras/make_signed_pdf.py`
  writes the signed document that `tests/signed.rs` holds.
- `app/` is the `tsuro` command: file and folder I/O, the PDF engine
  (`pdfium-render`, bound to the PDFium library at run time, on a thread of
  its own) that the render queue's work goes to, the print PDF written
  with `pdf-writer`, the printer spool, the floating-point zoom and render
  scales that the render queue is told of, and copies of the library's
  types with `serde` and `thiserror` derives.
