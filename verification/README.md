# sldr

A slide library manager: markdown slides with YAML frontmatter, playlists
that assemble them into talks, flavors that brand them, and a native
PowerPoint writer and package checker.

`src/` is the verified core. Every function states what it returns in its
contract, and the laws that span functions are proof functions:

- `text`, `lang`, `slide` — string helpers, `::lang:xx::` language blocks,
  frontmatter, chrome per language, slide collections;
- `fuzzy`, `find`, `show`, `list`, `usage` — name resolution, search
  ranking, the listings, where-used;
- `media`, `config` — media references and folders, configuration paths;
- `flavor` — design tokens and the CSS they become, flavor collections;
- `pptx`, `mdooxml`, `deck`, `preflight`, `export` — OOXML parts,
  markdown as DrawingML, templates and decks, export accounting;
- `package`, `xml`, `report` — reading and validating `.pptx` packages,
  findings and their enforcement;
- `cli`, `presentation`, `add` — the command line's own rules (the
  interchange policy among them), playlists (also made from a directory),
  adding slides to and removing them from a playlist;
- `bundle` — the `.sldr` bundle: its axes, where media land, the sorted
  media and layout sets, the entry order and the archive itself.

Outside crates are reached through a few trusted wrappers, each documented
where it stands. `app/` is the command line around the library: argument
parsing, the file system, serde shapes and the floating-point arithmetic.
