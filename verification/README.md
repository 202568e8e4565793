# visual_diff

A viewer for the uncommitted changes of a local Git repository: text and
JSON diffs (prettified, with ignored keys stripped and syntax classes
highlighted), and image comparisons that hide re-encodings whose pixels
did not change.

- `src/` is the verified library: parsing `git status` and `git cat-file`
  output, path order and extensions, JSON tokens and documents, diff rows
  and which of them are shown, image classification, the stored list of
  recent repositories, and the viewer's state machine (`session`), which
  turns each event into the outside work to do.
- `app/` is the program around it: the `iced` window, running Git, reading
  and writing files, and background tasks.
- `tests/` exercise the library.
