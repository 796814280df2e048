# wing_extract

Extracts interleaved multichannel WAV recordings, including recordings split into segments, into
one mono WAV file per channel. It is made for the 32-channel packed recordings that Behringer WING
consoles export.

## Layout

- `src/` is the library, verified with Verus. It performs no input or output.
  - `inputs`, `paths`: which files are read, and in which order
  - `parse`, `bytes`: the chunks of a WAV file
  - `format`, `survey`: which formats and files make up one recording
  - `frames`, `demux`: reading frames in pieces and splitting them into channels
  - `header`, `output`: what the output files are called and start with
  - `run`: a whole extraction, from file contents to file contents
  - `laws`: what holds of the extraction as a whole
  - `text`, `progress`: durations and the progress line
- `tests/` runs the library.
- `app/` is the command line around it.

## Usage

Pass either a directory containing WAV segments (for example `00000001.WAV`, `00000002.WAV`, ...),
or one or more WAV files and directories.

```text
--output-dir <dir>      Output directory (default: extracted)
--prefix <name>         Output file prefix (default: Channel)
--channel-start <n>     First output channel index (default: 1)
--max-frames <n>        Limit extraction for quick checks
--recursive             Recursively scan input directories for WAV files
```

Output files are named like `Channel-1.wav`, `Channel-2.wav`, etc.
