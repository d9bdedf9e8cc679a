# r-ya-mapping

Beat Saber map scaffolder: give it a YouTube link and it prepares a
CustomWIPLevels folder (song, cover, `Info.dat`, `BPMInfo.dat` and an empty
difficulty file), with its global options kept in a `git config`-like file.

## Layout

- `src/` is the library, written in Verus and verified:
  - `text.rs`: character-level helpers (trimming, searching, line splitting,
    decimal numbers) with their specifications.
  - `config.rs`: the configuration document (a key-ordered map), quoting,
    and reading and writing the configuration file.
  - `config_laws.rs`: what the file gives back of what was written to it.
  - `settings.rs`: the known keys, key validation, the `config` subcommand's
    decisions, and the typed mapping options.
  - `youtube.rs`: video ids, song metadata from `yt-dlp --dump-json`, tools
    on the search path, and the choice of the thumbnail file.
  - `audio.rs`: the `ffmpeg`/`ffprobe` requirements, reading probe output,
    and the padding filter.
  - `start.rs`: song fields, folder name, path clean-up and map defaults.
  - `beatmap.rs`: beatmap file names and CRLF line endings.
- `app/` is the command-line program around the library: argument parsing,
  running `yt-dlp`, `ffmpeg` and `ffprobe`, the file system, the
  floating-point BPM detector and onset finder, and the JSON map files.
- `tests/` runs the library on concrete inputs.
