# desktag

The verified core of DeskTag, an always-on-top badge that shows the name of
the current Windows 11 virtual desktop.

- `src/` — the library, verified with Verus:
  - `position` — anchors, custom points, the `key=value` stored form
    (`format`/`parse`, proved to round-trip) and the origin/clamp geometry;
  - `label` — the badge text for a desktop;
  - `edit` — the inline rename buffer (UTF-8 caret, selection, length limit);
  - `theme` — light/dark palettes and the registry flag's meaning;
  - `icon` — pixel post-pass, tray bitmaps, BMP icon entries and `.ico` files;
  - `badge` — the window's sizing, placement, tray and key decisions;
  - `config`, `desktop` — what a read of the config file or of the current
    desktop turns into;
  - `text` — trimming, decimal text and `i32` parsing on characters.
- `app/` — the Windows program around it: winvd, the registry, GDI, the
  window procedure and file I/O.
- `tests/` — tests of the library.
