# aanote

The rules of a note-taking app that keeps markdown notes in a folder and, where
asked, synchronises them with Google Drive. Every function of the library states
in a contract what it does, and the contracts are proved with Verus.

The library does no input or output. What takes several steps (writing a file,
moving a note into the trash, a login, a sync) is a state that says what it asks
for next and takes the answer. The app performs the steps.

## Layout

| Where | What |
|---|---|
| `src/text.rs`, `bytes.rs`, `paths.rs`, `pathmap.rs`, `sort.rs` | texts, their bytes, paths, maps by path, sorting |
| `src/clock.rs`, `url.rs` | times and their texts, percent-decoding |
| `src/listing.rs`, `tree.rs`, `search.rs`, `recent.rs` | what a folder shows: the tree, searches, recent notes |
| `src/notes.rs`, `write.rs`, `steps.rs`, `trash.rs` | making, saving, moving and deleting notes; the trash |
| `src/index.rs`, `remote.rs`, `local.rs`, `plan.rs`, `conflict.rs` | what a sync knows of both sides and decides for one note |
| `src/sync_model.rs`, `sync.rs`, `turns.rs` | the course of a sync, and that there is one at a time |
| `src/login.rs`, `drive.rs`, `session.rs`, `reset.rs` | logging in, connecting, resetting, and what Google's answers come to |
| `src/*_laws.rs`, `sync_twice.rs` | what holds of all of it; what one sync leaves for the next |
| `tests/` | tests |
| `app/` | the Tauri app around the library |

What the library takes from `chrono` and from the standard library without a
proof is declared, with what is relied on, in `clock.rs`, `search.rs`, `text.rs`,
`turns.rs` and `url.rs`.
