# file_help

The verified core of a desktop file helper that extracts study materials,
lists the file extensions found in folders, converts documents and images,
and splits `.study` texts into pages.

- `src/` is the library, verified with Verus:
  - `text`: whitespace and trimming, line splitting as `str::lines` does it,
    decimal numerals;
  - `parser`: the `.study` page parser and its laws;
  - `extensions`: the conversion table (`can_convert`), sorted duplicate-free
    extension listings, input selection;
  - `pattern`: the regular expressions that select files for extraction;
  - `convert`: the per-file decisions of a batch conversion, its candidate
    file names, messages and tally;
  - `error`: the error types.
- `app/` holds the filesystem side: directory traversal, copying, the default
  target path (`Path::with_extension` on the file's stem), probing the target
  folder for a free file name, and the calls into the document and image
  converters. Which files are taken, what happens to each, the lowercase
  source extension, the fresh names tried, the messages and the batch tally
  come from the library.
- `tests/` exercises the library on concrete inputs.
