# video_manager_egui

A desktop manager for video workspaces: it downloads YouTube videos with
`yt-dlp` into bundle folders (video, chapters, transcript, thumbnail and a
bookkeeping file of uploads), cuts chapters with FFmpeg, uploads files to a
Cloudflare R2 bucket, edits the `data.json` playlists of a video player, and
serves a browser extension as a native-messaging host.

## Layout

- `src/` is the library, written in Verus and verified: every public
  function carries a `requires`/`ensures` contract over mathematical models
  (`Seq`, `Map`, spec functions), and the laws that relate several
  operations are public proof functions (their names start with `law_`).
  - `text`, `paths`, `strmap`: character sequences, path text, and an ordered
    string map.
  - `config`: settings, the environment overlay and `.env` parsing.
  - `r2`: AWS Signature V4 for R2 (URI encoding, canonical query, signing
    key chain, `Authorization`), public URLs and object keys.
  - `youtube`, `vtt`: file-name sanitising, `yt-dlp` command lines, WebVTT to
    timestamped transcript.
  - `local`, `pipeline`: bundle assembly, cut names and commands, uploaded-URL
    bookkeeping, upload targets.
  - `data_json`: playlist and chapter editing, bundle-to-playlist sync.
  - `native_host`: launch detection, extension ids and origins, request
    routing, clip names and download arguments.
  - `ui_helpers`, `process`, `error`: small decisions of the window, tool
    version lines, error messages.
- `app/` is the program around it: the egui window, file and network I/O,
  running the external tools, JSON/XML (de)serialisation, and the
  floating-point parts (chapter times, sizes, layout widths).
- `tests/` exercises the library on concrete values.

Chapter times are carried in the library as the bit patterns of `f64`
values; the library never computes with them.
