# wxqr (verified core)

A local QR decoder command line tool. The library under `src/` holds the
parts that decide and compute, each with a contract proved by Verus:

- `cli` — command line parsing (`parse_args`, `parse_dec`,
  `complete_files_from`, `FormatKind::parse`) and error messages;
- `format` — the txt / json / tsv output formats and their escapes, with
  laws on them (one line per record, three tsv columns);
- `json` — a reader of JSON text, and the laws that the escaped strings
  and the whole json document read back to what was written;
- `run` — what to do after each image and the exit code of a run;
- `decode` — the result type and options of a decode;
- `chars` — character, field-splitting and UTF-8 helpers.

`app/` is the program around it: reading arguments, the `--files-from`
list and the images, running the OpenCV WeChatQRCode detector, and
writing the formatted bytes to standard output.
