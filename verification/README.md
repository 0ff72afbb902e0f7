# eidos

A mod-manager model for Bethesda-style games, written in Verus: what an
archive's layout means for installation, how a profile's mod list is
reconciled with the mods folder, what mod metadata, category catalogues,
tool lists and settings files hold, when a load order looks wrecked rather
than edited, and what a tool run's receipt says about its inputs. Each
function states its result over a mathematical model, and the laws that tie
functions together (round trips, agreement between installers, the shape of
cleaned names) are proved as public proof functions.

Layout:

- `src/` — the verified library, one module per concern (`archive`,
  `picker`, `naming`, `modlist`, `mo2`, `meta`, `sections`, `categories`,
  `tools`, `settings`, `registry`, `manifest`, `backup`, `export`, `plugins`,
  `inis`, `saves`, `unmanaged`, `instance_ops`, `provenance`, with `text`,
  `ini` and `paths` underneath).
- `app/` — the file-system side: reading the files and folders the library
  describes, locking, and writing back what it produces.
- `tests/` — tests of the library on concrete values.
