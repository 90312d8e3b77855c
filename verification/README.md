# scraps

A static site generator and command-line tool for a wiki of markdown
"scraps" linked by `[[wiki links]]` and `#[[tags]]`, with its core verified
in Verus.

- `src/` — the verified library: the wiki model and link parsing, backlinks
  and tags, lint rules, lookups (a scrap, its links, its backlinks, its
  neighbourhood), search, the title index and index views, scrap summaries,
  the neighbourhood graph's selection, and where each page of a site goes.
  Public functions carry contracts over a mathematical model of their
  inputs, and laws that span functions are public proof functions. The
  build driver hands pages to writers that the caller supplies; its
  contract states only the count it returns, while what it writes and in
  which order is the verified `build_plan`.
- `tests/` — tests of the library on concrete wikis.
- `app/` — the command line around it: reading the scraps directory, asking
  git for commit times, writing HTML pages, laying out the graph drawing,
  and serving a built site over HTTP. Pages show the README and each
  scrap's markdown as plain, unconverted text; there is no markdown-to-HTML
  conversion here.
