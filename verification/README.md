# strata

The Trail model of the Strata file manager, verified with Verus.

A *Trail* is a tab of the browser: a named stack of locations whose last one is where the tab
is. The library keeps the Trails of a window, decides what every tab action does to them, and
states those decisions as contracts that Verus proves.

## Layout

- `src/path.rs` — native paths as raw bytes, read component by component as Unix paths are
  (`parent`, ancestors, `strip_prefix`, `join`, `with_extension`, ordering), with the laws that
  tie them together (a parent drops exactly the last component; rebasing keeps what lies below and can be undone).
- `src/text.rs` — blank names (Unicode white space), decimal numbers, lossy UTF-8 display.
- `src/model.rs` — `Location` (native bytes or an explicit URI), view preferences, file entries.
- `src/trail.rs` — `TrailId`, `Trail`, `TrailCollection` and its repair (`normalize`).
- `src/services.rs` — the stored record and the `TrailStore` trait that stores implement.
- `src/trails.rs` — `Trails`: create, activate, cycle, rename, pin, close and navigate, each
  saved through the store, whose answer it passes on (a blank Trail name is refused first, as
  `TrailsError::BlankName`); every operation keeps a consistent collection consistent.
- `src/local_store.rs` — the rules of the Trail file on disk: its temporary path, the records it
  accepts when read and the ones it agrees to write.
- `src/tabs.rs` — what the tab strip shows for the Trails.
- `app/` — a command-line front end: the Trail file read and written through the file system
  with TOML, and the tab actions.
- `tests/` — the behaviour on concrete inputs.
