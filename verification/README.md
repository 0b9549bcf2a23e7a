# bwww

A filesystem-first personal site generator: posts are directories of
reStructuredText under `content/posts/`, and `bwww build` turns the workspace
into a static site under `dist/` (pages, tag and archive indexes, an Atom
feed, a sitemap and a search index). `bwww new` starts a draft post,
`bwww check` reads the content without building, and `bwww serve` builds and
previews the site locally.

The decisions are a library verified with Verus; the program around it does
the file and network work.

- `src/rst/` parses the supported reStructuredText subset and renders it to
  HTML; both are specified exactly, and the executable code is proved to
  produce what the specifications say.
- `src/content/` holds dates, post metadata, the checks on a post source and
  the listing order of posts.
- `src/site/` plans a build: `plan_build` returns every file to write or
  copy, in order, and the proof functions there state what every build
  keeps (drafts get no files, every published post gets its page, tags and
  archive years are listed once each, in order).
- `src/commands/` decides what `new` writes and how `serve` answers a
  request.
- `app/` is the command line: argument parsing, reading the workspace,
  carrying out a build plan on disk and the preview server.

The tests under `tests/` exercise the library on concrete inputs.
