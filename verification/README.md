# ll_core

A verified core for a component-library loader that installs CAD libraries
downloaded from a component search service, and for an MCP server that
answers questions about the libraries already installed.

`src/` is checked by Verus:

- `config` — configuration types, locating `LibraryLoader.toml`, resolving
  configured output formats (directory expansion, model URI and extension
  overrides).
- `archive`, `kicad`, `symbols`, `extractors`, `format` — taking a library
  out of a ZIP archive: KiCad footprints with their 3D model references
  rewritten, models, legacy files, merging symbol libraries, and the
  path-matching extraction of other ECAD formats.
- `cse` — where the files of an extracted library are written, and when an
  existing file is kept or refused.
- `requirements`, `matching`, `assets`, `scan` — the offline check of a part
  number: which requirements were asked for, where they are searched, which
  files count, and the bounded walk through the output directories.
- `mcp` — the server's decisions: methods, tools and their arguments, error
  codes, and configuration summaries.
- `text`, `path`, `order` — text, path and ordering helpers the rest is
  proved with.

`app/` is the server itself: JSON-RPC over standard input and output, the
TOML configuration file, and the file-system side of saving libraries and
walking directories. It drives the verified functions for every decision
they cover. The client of the component search service is not part of this
project, so the tools that would contact it (`exists_on_server`,
`format_exists_server`, `download_epw`, `download_part_id`) check their
arguments and the configuration and then answer that the service is not
available.
