# rust_hover_preview

The decisions behind the hover preview of text and PDF files in File Explorer,
written in Verus and proved against their contracts.

- `src/file_kind.rs`: which paths are previewed as text (Windows path
  prefixes, file name, extension, case-insensitive lists).
- `src/text_decode.rs`: decoding a file's bytes (byte order marks, UTF-8,
  UTF-16, Windows-1252 through `encoding_rs`) and rejecting binary content.
- `src/text_layout.rs`: tab expansion, line splitting, line numbers and the
  vertical layout of a text page.
- `src/preview.rs`: what a page shows (text, status line, size) and the
  opaque pixel buffer of a drawn page.
- `src/pdf_handler.rs`: which PDF preview handler CLSID to create, the registry
  key that shows a handler is installed, and the registered CLSID text.
- `src/chars.rs`: conversions between strings and character vectors.

`app/` holds the Windows side: reading files, GDI drawing, registry lookups
and hosting the COM preview handler.
