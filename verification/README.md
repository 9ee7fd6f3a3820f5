# mdlite

The logic of mdlite, a desktop markdown previewer, as a verified Verus library,
with the Tauri application around it.

- `src/` — the library, verified by Verus:
  - `config.rs` — the recent-files list (most recent first, no repeats, at most
    ten entries), keeping the entries that still exist, and the zoom level;
  - `text.rs` — displayed paths, file extensions, markdown names, name order;
  - `paths.rs` — the calls into `std::path`, and the plain paths (names
    joined by `/`, without `\`, `:`, `.` or `..`) on which every platform
    splits a path alike, so that their results are stated there;
  - `scan.rs` — directory listings: the navigation tree, one-level scans, the
    default file of a folder, the markdown files beneath a folder, the
    progressive scan's walk (`ScanWalk`, `scan_batch`) and why it finds what
    collecting finds;
  - `registry.rs` — the set of known markdown files and what a deleted path
    removes from it. It is a vector of path strings held without repeats, so
    that its contents have a contract; paths are compared as strings, which
    agrees with `std::path` component equality on the plain paths where that
    equality is stated;
  - `watch.rs` — what a batch of watcher events is reported as, for any
    paths, over what the path calls answered for each event;
  - `session.rs` — startup, what the window has open and how switching a file
    or folder changes it, mode reports, window titles and the scan/folder
    generations;
  - `menu.rs` — menu identifiers (built and decoded) and labels;
  - `update.rs` — comparing the running version with the latest release.
- `app/` — the Tauri application: windows, menus, dialogs, the settings store,
  filesystem access, watcher threads and the jump list / dock menu.
- `tests/` — tests of the library.
