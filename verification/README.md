# manview

A man page viewer: pages are rendered by `mandoc` to HTML, parsed into a
renderer-agnostic `Document`, flattened into lines of styled words and shown
in a terminal pager with cross-page links, in-page search and a history of
visited pages. Every installed page's flags can be indexed and searched
token by token (`manview flags dry-run`).

The library in `src/` holds the logic, with its contracts proved by Verus:

- `text`, `numbers`, `paths` — whitespace, decimal numbers, path components;
- `html`, `parse`, `links`, `document` — mandoc's HTML to a `Document`, with
  cross-references turned into links;
- `loader` — the steps of loading a page (`man -w`, reading and gunzipping,
  `mandoc`), each handed what the program got from the system;
- `finder`, `indexer`, `search` — discovering pages, extracting flags,
  token-aware flag search;
- `lines`, `wrap`, `pager`, `screen` — the pager: lines, word-wrap, keys,
  search, history, status line and styles;
- `cli` — arguments, listing of flag results, the cache location.

`app/` is the program around it: the terminal, processes, files, the cache
file and the indexing threads.
