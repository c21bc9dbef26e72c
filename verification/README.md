# video_splitter

A command-line tool that cuts a long video into segments at silent moments
(FFmpeg's `silencedetect`, optionally scene changes), transcribes the whole
video once with whisper.cpp and cuts the subtitles to each segment, extracts
key frames, writes a JSON manifest, and searches the transcripts.

The library under `src/` is verified with Verus:

- `text`: `str`-like operations on character sequences (split, replace,
  lines, trim, join) with exact specifications.
- `decimal`: reading and printing decimal numbers.
- `transcribe`: SRT/WebVTT parsing and rendering, cutting cues to a segment.
- `cue_laws`: round trips — printed times and whole SRT/WebVTT files read
  back to what was written.
- `paths`: Unix path operations (`file_stem`, `extension`, `parent`,
  `join`, `with_extension`, relative paths) and the names of output files.
- `order`: ordering strings, used for key-frame lists.
- `search`: case-insensitive transcript search, hits ordered by time.
- `probe`: the numbers that FFmpeg prints, found with the `regex` crate.

`app/` holds the program around it: argument handling, running FFmpeg and
whisper.cpp, file I/O, serde, and the floating-point planning of split times.
