# PIC-Killer

A command line tool that edits the metadata of photos (EXIF, XMP and IPTC) without touching the
picture, and the verified library behind it.

- `src/` is the library: the formats, the edits, the texts that are shown, as functions over plain
  bytes and text. Every function has a contract, and Verus proves it. What is taken from other
  crates stands behind small functions whose doc comments say what is believed of them.
- `app/` is the program: arguments, files, threads, the clock, and floating point.
- `tests/` runs the library.

| Module | What it holds |
|--------|---------------|
| `bytes`, `text`, `textlaws` | integers in bytes, characters, decimal numbers |
| `jpeg`, `png`, `jxl`, `webp` | segments, chunks and boxes: finding, replacing, removing |
| `xml`, `xmp`, `iptc`, `gpx` | the formats |
| `pieces`, `xmplaws`, `xmpedits`, `xmpeffects` | what is written as XML and read again: fresh packets, edits, what an edit comes to |
| `fieldlaws` | the names of IPTC fields |
| `tags`, `exif`, `tagtext` | EXIF directories, tags, orientation, position, values in words |
| `intake` | which images EXIF can be written into |
| `stamp`, `timeop`, `deltalaws`, `namedate`, `geotag` | the calendar, moves in time, offsets as text, dates in names, tracks |
| `scan`, `whereexpr` | which files are handled |
| `timecmd`, `tagcmd`, `editcmd`, `applycmd`, `filecmd`, `showcmd`, `reportcmd`, `outcome`, `cli` | the commands |
