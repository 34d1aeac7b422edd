# findex

A file-search engine for Windows volumes, written in Verus: the library's
behaviour is stated in `requires` / `ensures` contracts and proved.

## Layout

- `src/` — the verified library.
  - `text` — character-sequence helpers and their specifications (search,
    split, join, trim, decimal numbers).
  - `types`, `index_engine`, `searcher`, `order`, `pinyin` — the trie index
    over file names, the ranked search router and pinyin-initial matching.
  - `usn`, `usn_reader`, `index_sync` — NTFS change-journal records, the
    changes they describe and how they update an index; the start-up choice
    between loading the saved index and building one volume by volume, through
    the journal where it can be read and by walking the folders where not.
  - `entry_json`, `storage` — the one-line JSON form of an entry and the
    index file, with the proofs that a saved index loads back unchanged when
    no text holds a comma or ends with a quote (and, in the index file, holds
    no bracket or brace); backslashes, as in Windows paths, are escaped and
    read back.
  - `ui_config`, `app_config`, `journal_state`, `json_tokens` — the settings
    files, hotkey text and the journal-position file, with the proofs that
    what is written reads back: the settings, in the indented and the
    one-line form, whenever no text holds a quote or names a key written
    after it and no list item is empty or holds a comma or `]` (backslashes
    read back); hotkeys for every key that has a name.
  - `file_kinds`, `display`, `cli`, `commands`, `walker`, `win32`, `overlay`,
    `search_panel`, `settings_form`, `raster` — the decisions of the command
    line, of the front ends' requests, of the search and settings windows, and
    the pixel side of the windows' software renderer.
- `tests/` — tests of the library on concrete values.
- `app/` — the `findex` command (search, index build and the rest), the egui drawing of the windows and the
  triangle rasterizer: file and registry access, folder walking and printing,
  around the library.
