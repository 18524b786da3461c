# rnix-lsp

A language server for [Nix](https://nixos.org): diagnostics, go to definition,
completion, renaming, document links, formatting and selection ranges.

`src/` is the library. It is written in Verus: what each function returns is
stated in its contract and proved.

- `text`, `utf16`: characters, bytes and code units.
- `position`: lines and columns, as editors count them.
- `change`: the changes that an editor reports to a document.
- `syntax`, `document`: what the server reads of a parsed file.
- `tree`: what the cursor stands on, and which variables hold there.
- `layout`: which files can be formatted.
- `diagnostics`, `rename`, `scope`, `links`: what the server says about the file.
- `protocol`, `server`: the messages, the open documents, the answers.

Parsing is left to `rnix`, formatting to `nixpkgs_fmt`, and reading URLs to
`lsp_types`. What the library takes for granted about them stands above the
functions that call them.

`app/` is the program around the library: standard input and output, JSON, and
the file system.
