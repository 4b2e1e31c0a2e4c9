# cce_fonts

A font viewer for fontconfig systems, with its logic verified in Verus.

- `src/text.rs` — character-level helpers over `Seq<char>`: whitespace,
  trimming, searching, the order of `String`, decimal and radix numbers,
  lines and words.
- `src/pages.rs` — the font catalogue: reading what `fc-list` prints,
  ordering it by family, user fonts, and counting what `fc-query` reports;
  the sidebar pages. Laws of the catalogue's order are proved here.
- `src/pages/` — the state of the browse, details, preview and keybindings
  pages and how each page reacts to its messages.
- `src/viewer.rs` — the viewer's selection state: the family list and its
  search, the selected family with its styles and files, and what the
  viewer does on messages, keys and clicks.
- `app/` — the window (widgets, layout in pixels, painting) and the
  processes the viewer starts (`fc-list`, `fc-query`, `gio`, `xdg-open`).
- `tests/` — tests of the library.
