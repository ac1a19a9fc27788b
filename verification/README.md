# download_cleaner

A macOS helper that watches `~/Downloads`, reads where each finished download
came from, and asks with a native dialog where to file it, remembering how
often each folder was chosen for each source.

The decisions are a Verus-verified library under `src/`:

- `text`, `pathing`, `sort`, `assoc`: strings, `Path`-style paths, stable
  sorting and sorted association lists, with their order lemmas.
- `config`, `types`: the configuration read from the environment and the
  values passed around.
- `file_ops`: which files are left alone, and where a moved file lands.
- `memory`: the per-source choice counts, the suggested folder and the summary.
- `metadata`: the source domain from the `kMDItemWhereFroms` property list
  (parsed with `plist`, URLs read with `url`).
- `daemon`, `queues`: waiting for files to settle, offering each file state
  once, and grouping downloads of one source into batches.
- `ui`, `manager`, `launch_agent`: the AppleScript dialogs and how their
  answers are read, the list manager, and the LaunchAgent property list.
- `panel_state`, `panel_app`: the state of the management panels (search,
  sorting, selection, the texts shown).

`app/` is the program around it: the watcher loop with `notify`, the file
system and `osascript` calls, the memory file in JSON, and the `eframe`
panel. `tests/` runs the library on concrete values.

Modes: no argument runs the watcher; `panel` opens the desktop panel;
`panel-script` the AppleScript list manager; `panel-summary` the summary of
the memory.
