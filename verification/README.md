# tts_library

The logic of a desktop reader that reads books and clipboard text aloud,
verified with Verus.

- `src/` is the verified library:
  - `chunking`: splitting text into pieces of at most a given number of
    UTF-8 bytes for the speech voice;
  - `html_strip`, `html_tree`, `epub_text`, `words`: the text of EPUB
    chapters, with footnotes, endnotes and asides left out;
  - `pdf_text`: what content-stream operators show, and the dominant font
    size of a page;
  - `chapters`: chapter lists of PDF and EPUB documents;
  - `tts`: the speech session (what is read, the queued pieces, the reading
    position) and the clipboard hotkey;
  - `library`: the list of imported books;
  - `paths`, `text`: file names and character-level helpers.
- `tests/` runs the library on concrete inputs.
- `app/` is the application around it: the tauri window and commands, file
  access, PDF and EPUB loading, the Windows speech voice and the clipboard.
