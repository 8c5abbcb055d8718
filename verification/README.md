# Falcon

Falcon is a disk explorer: it shows what lies on a disk as a tree, with the size of each directory,
while the disk is still being scanned.

- `src/` is the logic, verified with Verus.
  - `path`, `size`, `decimal`, `order`, `collection`, `children`: paths, texts of byte counts, the
    order of entries, and the maps, sets and lists that the explorer keeps.
  - `listing`, `walk`, `scan`: what the file system answers, the walk that adds up the size of a
    directory, and the scan that reports a directory. Both say what to do next and take the answer;
    they do no input or output themselves.
  - `totals`, `report`: how the size of a directory depends on what lies in it, and what a scan sends
    from its first message to its last.
  - `explorer`, `screen`, `render`, `labels`: the state of the explorer, what the window shows of it,
    and the texts it shows.
  - `laws`, `replay`: what holds of the explorer whatever it is told, and what the tree holds once
    all messages of a scan have arrived.
- `app/` is the window, with the threads that scan.
- `tests/` runs the library on small examples.
