# clonehero_maker

Turns an audio file into a ready-to-play Clone Hero song folder
(`song.ogg`, `guitar.ogg`, `notes.mid`, `song.ini`, `album.png`).

The crate is written in Verus. `src/` is the verified library:

- `cli` – difficulties (lanes, ranks, ratings, grid density) and the
  command line arguments;
- `midi`, `notes`, `midi_laws` – the chart: where notes go (onsets or beat
  grid), the fret pattern, the stable time ordering of note events, the
  tracks, and the laws every chart obeys (balanced notes, lanes, timing);
- `song_ini` – the exact text of `song.ini`;
- `metadata` – song metadata from tag fields with file-name fallbacks;
- `builder` – input/output checks and safe folder names;
- `album_art` – the embedded cover when it decodes, else a placeholder
  drawn from the title;
- `audio` – the choice of frame count for the song length;
- `text` – characters, trimming and decimal numbers.

`app/` is the command line program around it: argument parsing, file and
process I/O, audio decoding and the floating-point signal analysis, and
the conversion of the chart to `midly` and of images to PNG files.
`tests/` exercises the library.
