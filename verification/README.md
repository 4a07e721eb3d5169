# yaffs2_fuse

A read-only YAFFS2 filesystem: it scans the chunks of a NAND image, rebuilds
the objects, the directory tree and the contents of the files, and answers
the queries of a FUSE mount from them.

- `src/` is the library, verified with Verus. `yaffs2::scan` states what a
  scan builds, chunk after chunk; `yaffs2::Yaffs2` scans an image and
  answers `stat`, `lookup`, `read`, `readdir`, `statfs` and `open`, each
  against an exact contract; the on-flash formats (tags, object headers)
  are decoded in `yaffs2::tags` and `yaffs2::object_header`; the concurrent
  maps of the `dashmap` crate are reached through `yaffs2::maps`.
- `app/` is the program: command line, mapping the image file, and the
  `fuser::Filesystem` front that hands each request to the library.
- `tests/` runs the library on small synthetic images.
