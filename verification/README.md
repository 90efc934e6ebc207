# mdterm

A markdown reader for the terminal, with a verified core.

`src/` is the library. It renders markdown to styled lines, wraps them, lays out
tables, reserves room for images and draws them with the kitty graphics protocol,
and decides what keys do. Every function states in its contract what it returns.
Verus proves these contracts, but for those of the wrappers around outside crates
(`pulldown-cmark`, `image`, `base64`, `unicode-width`, `ratatui`) and of three
functions of the standard library: these are believed, and a comment above each
says what is believed of it.

- `text`, `width`, `paths`: characters, columns and paths.
- `style`, `wrap`, `table`, `page`: styled lines and how they fill a page.
- `events`, `markdown`, `document`: from markdown to a document, and what holds of
  every document.
- `images`, `sums`, `kitty`, `placing`: images and how they get to the screen.
- `app`, `ui`, `input`, `browse`, `editor`: the state of the reader, what a frame
  shows, keys, the file picker, the choice of an editor.
- `session`: what holds during a whole session.

`app/` is the program around it: terminal, files, environment.
