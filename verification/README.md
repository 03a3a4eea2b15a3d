# luminous

The logic of a music player's library, verified with Verus: the playback
queue (play order, shuffle, repeat, history, the "play next" list), playlists
with undo and redo, playlist files (M3U, PLS, XSPF) read and written, the
curated genre hierarchy and its reconciliation with the library, automatic
playlists, the ListenBrainz settings and offline cache, and the Subsonic
sign-in parameters, track paths and sync decisions.

- `src/` is the library. Every executable function there carries a contract
  that Verus proves; the laws that relate several functions are public proof
  functions beside them.
- `tests/` runs the library on concrete values.
- `app/` is the unverified part around it: the SQLite store, files on disk,
  JSON on the wire, HTTP through functions the embedder supplies, and the few
  computations on floating-point values.
