# asp_ls

A language server for Classic ASP (VBScript), with its logic verified by
Verus, and the Zed extension that installs it.

- `src/` is the verified library: the include-directive and definition
  grammar (`grammar`), per-file indexes (`parse`), lexical paths (`paths`),
  the file snapshot the server resolves includes against (`files`), the
  workspace state and its searches (`state`, `closure`), positions in lines
  (`position`), the answers to LSP requests and document notifications
  (`lsp`), hover texts for built-in objects (`builtins`), the choice of the
  prebuilt release to install (`release`), and the properties proved of all
  of these (`laws`).
- `app/` holds what runs around it: the LSP connection and the file system
  walk (`main.rs`), and the Zed extension (`extension.rs`).
- `tests/` exercises the library on concrete workspaces held in memory.
