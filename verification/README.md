# beditor

A terminal editor for files of any size, as text or as bytes. The file is worked
on in blocks: only those that are needed are in memory, each edited block is a
gap buffer, and edits that had to leave memory or were saved go to a log beside
the file until they are folded into it.

- `src/` is the editor without input and output: blocks and gap buffers, the
  table of block sizes, the cache, the log, undo and redo, search, the line
  index, what is on the screen, and what keys and commands do. All of it is
  verified with Verus. Where an operation needs a block or the log, it says so,
  and is asked again when that is there.
- `tests/` runs the library over files that are kept in memory.
- `app/` is the program around it: arguments, terminal and files.

## Reading the contracts

What the cache holds is a `CacheModel`, what a session is a `SessionModel`. The
document over a file `base` on disk is `Editor::content(base)`: the blocks in
order, each as it is in the cache, else as it waits to be logged, else as it was
logged last, else as it is in the file. The `law_` functions state what holds of
several operations together: `edit_laws` that edits, undo and redo change the
document as they should, `history` that undoing and redoing a run of edits goes
through its documents back and forth, `search_laws` what a search finds, and
`recovery` that what was saved comes back when the document is opened again with
its log.
