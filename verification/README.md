# rustservice

A PDF reader service for a NAS: it lists the PDF files under the library
folders a user may read, renders pages as JPEG, and keeps each user's reading
progress.

- `src/` is the verified library (Verus): path containment in the library
  roots, directory listings in natural name order, breadcrumbs, the reading
  progress store and its text format, the platform's folder grants and their
  cache, request parameters, the JSON answers, the page cache layout and the
  idle expiry of the open document.
- `app/` is the program around it: configuration from the environment, the
  HTTP server (axum on tokio), file system and socket access, and page
  rendering with `pdf_oxide`.
- `tests/` exercises the library on concrete values.
